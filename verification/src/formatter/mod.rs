//! Output formatters: deterministic projections of a change set into text.

pub mod after;
pub mod changes;
pub mod json_patch;
pub mod path_filter;
pub mod path_parser;
pub mod render;
pub mod util;

use vstd::prelude::*;
use crate::cli::OutputFormat;
use crate::types::Changes;
use crate::formatter::after::AfterFormatter;
use crate::formatter::changes::ChangesFormatter;
use crate::formatter::json_patch::JsonPatchFormatter;

verus! {

/// A failure while rendering a change set.  The shipped formatters never
/// produce one; the variant stands for callers that must handle the
/// `Result` uniformly.
#[derive(Debug, Clone, PartialEq, Eq, Structural)]
pub enum FormatError {
    Unwritable,
}

/// A projection of a change set into output text.
pub trait Formatter {
    /// Renders the change set.
    fn format(&self, changes: &Changes) -> Result<String, FormatError>;
}

/// The formatter picked for an output shape.
pub enum SelectedFormatter {
    Changes(ChangesFormatter),
    After(AfterFormatter),
    Rfc6902(JsonPatchFormatter),
}

impl Formatter for SelectedFormatter {
    /// Renders with whichever formatter was picked, under that formatter's
    /// own guarantee.
    fn format(&self, changes: &Changes) -> (r: Result<String, FormatError>)
        ensures
            self matches SelectedFormatter::Changes(f) ==> (r matches Ok(s) && s@
                == crate::formatter::render::render_jv(
                if f.sort {
                    crate::formatter::util::sort_jv(
                        crate::formatter::changes::changes_doc(
                            crate::types::change_views(changes.added@),
                            crate::types::change_views(changes.removed@),
                            crate::types::change_views(changes.modified@),
                        ),
                    )
                } else {
                    crate::formatter::changes::changes_doc(
                        crate::types::change_views(changes.added@),
                        crate::types::change_views(changes.removed@),
                        crate::types::change_views(changes.modified@),
                    )
                },
                f.pretty,
                Seq::<char>::empty(),
            )),
            self matches SelectedFormatter::After(f) ==> (r matches Ok(s) && s@ == ({
                let doc = crate::formatter::after::after_doc(
                    match changes.after {
                        Some(av) => Some(av@),
                        None => None,
                    },
                    crate::types::change_views(changes.added@),
                    crate::types::change_views(changes.modified@),
                );
                if f.sort {
                    crate::formatter::render::render_jv(
                        crate::formatter::util::sort_jv(doc),
                        true,
                        Seq::<char>::empty(),
                    )
                } else {
                    crate::formatter::render::render_jv(doc, f.pretty, Seq::<char>::empty())
                }
            })),
            self matches SelectedFormatter::Rfc6902(f) ==> (r matches Ok(s) && s@ == ({
                let doc = crate::formatter::json_patch::patch_doc(
                    crate::types::change_views(changes.added@),
                    crate::types::change_views(changes.removed@),
                    crate::types::change_views(changes.modified@),
                );
                if f.sort {
                    crate::formatter::render::render_jv(
                        crate::formatter::util::sort_jv(doc),
                        true,
                        Seq::<char>::empty(),
                    )
                } else {
                    crate::formatter::render::render_jv(doc, f.pretty, Seq::<char>::empty())
                }
            })),
    {
        match self {
            SelectedFormatter::Changes(f) => f.format(changes),
            SelectedFormatter::After(f) => f.format(changes),
            SelectedFormatter::Rfc6902(f) => f.format(changes),
        }
    }
}

/// Picks the formatter for an output shape; each pretty-prints, sorting
/// keys on request.
pub fn create_formatter(format: OutputFormat, sort: bool) -> (r: SelectedFormatter)
    ensures
        format is Changes ==> (r matches SelectedFormatter::Changes(f) && f.pretty && f.sort
            == sort),
        format is After ==> (r matches SelectedFormatter::After(f) && f.pretty && f.sort
            == sort),
        format is Rfc6902 ==> (r matches SelectedFormatter::Rfc6902(f) && f.pretty && f.sort
            == sort),
{
    match format {
        OutputFormat::Changes => SelectedFormatter::Changes(ChangesFormatter::new(sort)),
        OutputFormat::After => SelectedFormatter::After(AfterFormatter::new(sort)),
        OutputFormat::Rfc6902 => SelectedFormatter::Rfc6902(JsonPatchFormatter::new(sort)),
    }
}

} // verus!
