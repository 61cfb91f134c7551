//! Turning flame-graph input text into an SVG image.
//!
//! The drawing is done by the `inferno` crate. Nothing is proved of the image:
//! its colours are picked at random on every run. The renderer adds up the
//! weights of all lines in 64 bits, so text whose weights could exceed that is
//! turned away before it gets there.

use vstd::prelude::*;
use vstd::string::*;

verus! {

/// The error of a failed write or of a renderer that found nothing to draw.
#[verifier::external_type_specification]
#[verifier::external_body]
pub struct ExIoError(std::io::Error);

/// On which side a label that does not fit its box is cut.
#[derive(Debug, Clone, Copy, PartialEq, Eq, Structural)]
pub enum TruncateDirection {
    Left,
    Right,
}

/// Why no image was produced.
#[derive(Debug)]
pub enum RenderError {
    /// The text has too many lines or too long a number for the renderer.
    TooLarge,
    /// The renderer failed; these are its own words.
    Failed(String),
}

/// The most digits in a row that text for the renderer may hold.
pub const MAX_DIGITS: usize = 13;

/// The number of line feeds that text for the renderer must stay below.
pub const MAX_LINE_FEEDS: usize = 1_000_000;

/// Whether `b` is an ASCII digit.
pub open spec fn is_digit(b: u8) -> bool {
    48 <= b <= 57
}

/// The number of digits in a row that end just before position `i`.
pub open spec fn digit_run(bytes: Seq<u8>, i: int) -> nat
    decreases i,
{
    if 0 < i <= bytes.len() && is_digit(bytes[i - 1]) {
        1 + digit_run(bytes, i - 1)
    } else {
        0
    }
}

/// The number of line feeds among the first `i` bytes.
pub open spec fn line_feeds(bytes: Seq<u8>, i: int) -> nat
    decreases i,
{
    if 0 < i <= bytes.len() {
        line_feeds(bytes, i - 1) + if bytes[i - 1] == 10 {
            1nat
        } else {
            0nat
        }
    } else {
        0
    }
}

/// Text that the renderer can take: no number in it has more than
/// `MAX_DIGITS` digits and it has fewer than `MAX_LINE_FEEDS` line feeds, so
/// that the numbers of all its lines, added up, stay below 2^64.
pub open spec fn renderable(bytes: Seq<u8>) -> bool {
    &&& line_feeds(bytes, bytes.len() as int) < MAX_LINE_FEEDS
    &&& forall|i: int| 0 <= i <= bytes.len() ==> #[trigger] digit_run(bytes, i) <= MAX_DIGITS
}

/// Whether `text` is text that the renderer can take.
pub fn is_renderable(text: &str) -> (ok: bool)
    ensures
        ok == renderable(text.spec_bytes()),
{
    let bytes = text.as_bytes();
    let ghost b = bytes@;
    let mut i: usize = 0;
    let mut run: usize = 0;
    let mut feeds: usize = 0;
    let mut too_long = false;
    while i < bytes.len()
        invariant
            b == bytes@,
            i <= b.len(),
            run == digit_run(b, i as int),
            run <= i,
            feeds == line_feeds(b, i as int),
            feeds <= i,
            !too_long ==> forall|j: int| 0 <= j <= i ==> #[trigger] digit_run(b, j) <= MAX_DIGITS,
            too_long ==> exists|j: int| 0 <= j <= i && #[trigger] digit_run(b, j) > MAX_DIGITS,
        decreases b.len() - i,
    {
        let byte = bytes[i];
        if 48 <= byte && byte <= 57 {
            run = run + 1;
        } else {
            run = 0;
        }
        if byte == 10 {
            feeds = feeds + 1;
        }
        i = i + 1;
        if run > MAX_DIGITS {
            too_long = true;
        }
    }
    !too_long && feeds < MAX_LINE_FEEDS
}

/// Draws the flame graph of `text`, one folded stack per line, with
/// `inferno::flamegraph::from_lines` under its default options but for the name
/// of the unit and the side on which labels are cut, and returns the SVG
/// document as bytes. Nothing is claimed of the bytes, nor of when the renderer
/// fails. The renderer sums the numbers at the ends of the lines as `u64`; the
/// precondition keeps that sum in range.
#[verifier::external_body]
fn draw_lines(text: &str, count_name: &str, truncate: TruncateDirection) -> (r: Result<
    Vec<u8>,
    std::io::Error,
>)
    requires
        renderable(text.spec_bytes()),
{
    let mut options = inferno::flamegraph::Options::default();
    options.text_truncate_direction = match truncate {
        TruncateDirection::Left => inferno::flamegraph::TextTruncateDirection::Left,
        TruncateDirection::Right => inferno::flamegraph::TextTruncateDirection::Right,
    };
    options.count_name = count_name.to_owned();
    let mut svg: Vec<u8> = Vec::new();
    match inferno::flamegraph::from_lines(&mut options, text.lines(), &mut svg) {
        Ok(()) => Ok(svg),
        Err(err) => Err(err),
    }
}

/// The text of an I/O error: `to_string` on `std::io::Error`. Nothing is
/// claimed of the text.
#[verifier::external_body]
fn describe(err: &std::io::Error) -> (message: String) {
    err.to_string()
}

/// What `draw_lines` handed back, with the error in the library's own type.
pub fn rendered(outcome: Result<Vec<u8>, std::io::Error>) -> (r: Result<Vec<u8>, RenderError>)
    ensures
        r is Ok <==> outcome is Ok,
        r matches Ok(svg) ==> outcome == Ok::<Vec<u8>, std::io::Error>(svg),
        r matches Err(e) ==> e is Failed,
{
    match outcome {
        Ok(svg) => Ok(svg),
        Err(err) => Err(RenderError::Failed(describe(&err))),
    }
}

/// Render flame-graph input text as an SVG image. Weights are microseconds,
/// and labels that do not fit are cut on the right. Text that the renderer
/// cannot take is turned away as too large; of what the renderer makes of the
/// rest nothing is known here.
pub fn render_flamegraph(text: &str) -> (r: Result<Vec<u8>, RenderError>)
    ensures
        r matches Err(RenderError::TooLarge) <==> !renderable(text.spec_bytes()),
{
    if is_renderable(text) {
        rendered(draw_lines(text, "μs", TruncateDirection::Right))
    } else {
        Err(RenderError::TooLarge)
    }
}

} // verus!
