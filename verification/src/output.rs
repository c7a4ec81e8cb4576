//! How the rendered tree is put out: coloured on a terminal, plain, or
//! fenced as a Markdown code block.
use vstd::prelude::*;

verus! {

/// The output formats.
#[derive(Clone, Copy, PartialEq, Eq, Debug)]
pub enum Format {
    /// For a terminal: coloured unless colour is turned off.
    Console,
    /// Without colour.
    Plain,
    /// Without colour, inside a fenced code block.
    Markdown,
}

/// Whether the tree is coloured: only for the console format, only when
/// stdout is a terminal, and neither `--no-color` nor the `NO_COLOR` variable is given.
pub fn use_color(format: Format, no_color_flag: bool, stdout_is_tty: bool, no_color_env: bool) -> (r: bool)
    ensures
        r == (format == Format::Console && !no_color_flag && stdout_is_tty && !no_color_env),
{
    match format {
        Format::Console => !no_color_flag && stdout_is_tty && !no_color_env,
        Format::Plain => false,
        Format::Markdown => false,
    }
}

pub open spec fn fence() -> Seq<char> {
    seq!['`', '`', '`', '\n']
}

/// The text put out for a rendered tree in the given format.
pub open spec fn framed(text: Seq<char>, format: Format) -> Seq<char> {
    if format == Format::Markdown {
        fence() + text + fence()
    } else {
        text
    }
}

/// Puts the rendered tree into the given format: the Markdown format wraps
/// it in a ``` fence, the others leave it as it is.
pub fn frame_output(text: &str, format: Format) -> (r: String)
    ensures
        r@ == framed(text@, format),
{
    match format {
        Format::Markdown => {
            let r = String::from_str("```\n").concat(text).concat("```\n");
            proof {
                reveal_strlit("```\n");
            }
            r
        },
        _ => String::from_str(text),
    }
}

/// Whether `init` may write the sidecar: only where there is none yet,
/// unless it is forced.
pub fn may_write_init(sidecar_exists: bool, force: bool) -> (r: bool)
    ensures
        r == (!sidecar_exists || force),
{
    !sidecar_exists || force
}

} // verus!
