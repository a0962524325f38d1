//! Composing one rendered row from the connector state and an entry.

use vstd::prelude::*;
use crate::envir::Setting;
use crate::utils::{Entry, Prefix};
use crate::wtree::{row_model, spec_row, Row};

verus! {

/// Whether any per-entry attribute block was asked for.
pub fn need_print_attr(setting: &Setting) -> (r: bool)
    ensures
        r == (setting.need_protection || setting.need_uid || setting.need_gid || setting.need_size
            != 0 || setting.need_ctime || setting.need_inode || setting.need_device),
{
    setting.need_protection || setting.need_uid || setting.need_gid || setting.need_size != 0
        || setting.need_ctime || setting.need_inode || setting.need_device
}

/// Composes the row for one entry: the connectors drawn so far, then the
/// rendered name, together with what a printer needs to decorate the line.
pub fn send(prefix: &Prefix, entry: &Entry, setting: &Setting) -> (r: Row)
    requires
        setting.is_no_indentation ==> prefix.segs().len() == 0,
    ensures
        row_model(r) == spec_row(*entry, prefix.segs(), *setting),
{
    let r = Row {
        prefix: prefix.render(),
        name: entry.render_name(setting),
        entry_name: entry.entry_name.clone(),
        path: entry.path.clone(),
        is_dir: entry.is_dir,
    };
    proof {
        if setting.is_no_indentation {
            assert(crate::strutil::concat_segs(prefix.segs()) =~= Seq::<char>::empty());
        }
        assert(row_model(r) =~= spec_row(*entry, prefix.segs(), *setting));
    }
    r
}

} // verus!
