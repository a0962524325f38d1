//! The entry model and the connector (prefix) state machine.

use vstd::prelude::*;

verus! {

/// The rendering mode of the prefix: draw connectors, or draw nothing.
pub enum PrefixMode {
    FileTree,
    NoIndentation,
}

/// The four fixed connector glyphs.
pub enum TreePrefix {
    Tab,
    Leaf,
    EndLeaf,
    SubDirTab,
}

/// The characters of a connector glyph.
pub open spec fn glyph(t: TreePrefix) -> Seq<char> {
    match t {
        TreePrefix::Tab => "    "@,
        TreePrefix::Leaf => "├── "@,
        TreePrefix::EndLeaf => "└── "@,
        TreePrefix::SubDirTab => "│   "@,
    }
}

/// The glyph drawn before a sibling's name: the end branch for the last
/// sibling, the mid branch otherwise.
pub open spec fn branch_glyph(is_last: bool) -> Seq<char> {
    if is_last {
        glyph(TreePrefix::EndLeaf)
    } else {
        glyph(TreePrefix::Leaf)
    }
}

/// The continuation pad kept for an open directory: blank when the
/// directory is the last sibling, a vertical bar otherwise.
pub open spec fn pad_glyph(is_last: bool) -> Seq<char> {
    if is_last {
        glyph(TreePrefix::Tab)
    } else {
        glyph(TreePrefix::SubDirTab)
    }
}

/// The string of one connector glyph.
pub fn get_tree_prefix(prefix_type: TreePrefix) -> (r: String)
    ensures
        r@ == glyph(prefix_type),
{
    match prefix_type {
        TreePrefix::Tab => String::from_str("    "),
        TreePrefix::Leaf => String::from_str("├── "),
        TreePrefix::EndLeaf => String::from_str("└── "),
        TreePrefix::SubDirTab => String::from_str("│   "),
    }
}

/// The sequence with its last element removed, or unchanged when empty.
pub open spec fn pop_seq(s: Seq<Seq<char>>) -> Seq<Seq<char>> {
    if s.len() > 0 {
        s.drop_last()
    } else {
        s
    }
}

/// The connector state: one glyph segment per open ancestor level, plus a
/// provisional branch glyph for the entry about to be drawn.
pub struct Prefix {
    pub prefix: Vec<String>,
    pub mode: PrefixMode,
}

impl Prefix {
    /// The segments as character sequences, in drawing order.
    pub open spec fn segs(&self) -> Seq<Seq<char>> {
        self.prefix@.map_values(|s: String| s@)
    }

    /// A fresh prefix: no segments, drawing connectors unless the
    /// configuration asks for no indentation.
    pub fn new(setting: &crate::envir::Setting) -> (p: Prefix)
        ensures
            p.segs() == Seq::<Seq<char>>::empty(),
            p.mode == (if setting.is_no_indentation {
                PrefixMode::NoIndentation
            } else {
                PrefixMode::FileTree
            }),
    {
        let p = Prefix {
            prefix: Vec::new(),
            mode: if setting.is_no_indentation {
                PrefixMode::NoIndentation
            } else {
                PrefixMode::FileTree
            },
        };
        proof {
            assert(p.segs() =~= Seq::<Seq<char>>::empty());
        }
        p
    }

    /// Seeds the prefix with one initial segment (used once, for the root).
    /// A no-indentation prefix stays empty.
    pub fn set_init_value(&mut self, init_prefix: String)
        ensures
            final(self).mode == old(self).mode,
            old(self).mode is FileTree ==> final(self).segs() == old(self).segs().push(
                init_prefix@,
            ),
            old(self).mode is NoIndentation ==> final(self).segs() == old(self).segs(),
    {
        match self.mode {
            PrefixMode::FileTree => {
                self.prefix.push(init_prefix);
                proof {
                    assert(self.segs() =~= old(self).segs().push(init_prefix@));
                }
            },
            PrefixMode::NoIndentation => {},
        }
    }

    /// Prepares the prefix for the sibling about to be drawn.  A directory
    /// replaces the provisional glyph by a continuation pad and a branch
    /// glyph, reserving drawing space one level deeper; a file replaces
    /// only the provisional glyph, and an interior sibling that is neither
    /// first nor last reuses the glyph already drawn.
    pub fn add_prefix(&mut self, is_begin: bool, is_last: bool, is_dir: bool)
        ensures
            final(self).mode == old(self).mode,
            old(self).mode is NoIndentation ==> final(self).segs() == old(self).segs(),
            old(self).mode is FileTree ==> final(self).segs() == (if is_dir {
                pop_seq(old(self).segs()).push(pad_glyph(is_last)).push(branch_glyph(is_last))
            } else if is_last || is_begin {
                pop_seq(old(self).segs()).push(branch_glyph(is_last))
            } else {
                old(self).segs()
            }),
    {
        match &self.mode {
            PrefixMode::FileTree => {
                if is_dir {
                    self.prefix.pop();
                    if is_last {
                        self.prefix.push(get_tree_prefix(TreePrefix::Tab));
                        self.prefix.push(get_tree_prefix(TreePrefix::EndLeaf));
                    } else {
                        self.prefix.push(get_tree_prefix(TreePrefix::SubDirTab));
                        self.prefix.push(get_tree_prefix(TreePrefix::Leaf));
                    }
                    proof {
                        assert(self.segs() =~= pop_seq(old(self).segs()).push(
                            pad_glyph(is_last),
                        ).push(branch_glyph(is_last)));
                    }
                } else {
                    if is_last {
                        self.prefix.pop();
                        self.prefix.push(get_tree_prefix(TreePrefix::EndLeaf));
                        proof {
                            assert(self.segs() =~= pop_seq(old(self).segs()).push(
                                branch_glyph(is_last),
                            ));
                        }
                    } else if is_begin {
                        self.prefix.pop();
                        self.prefix.push(get_tree_prefix(TreePrefix::Leaf));
                        proof {
                            assert(self.segs() =~= pop_seq(old(self).segs()).push(
                                branch_glyph(is_last),
                            ));
                        }
                    }
                }
            },
            PrefixMode::NoIndentation => {},
        }
    }

    /// Restores the prefix after a directory's subtree has been rendered:
    /// the pad and branch pushed on entry come off, and one branch glyph
    /// for the directory's own next sibling goes back on.
    pub fn remove_prefix(&mut self, is_next_last: bool, is_dir: bool)
        ensures
            final(self).mode == old(self).mode,
            old(self).mode is NoIndentation ==> final(self).segs() == old(self).segs(),
            old(self).mode is FileTree ==> final(self).segs() == (if is_dir {
                pop_seq(pop_seq(old(self).segs())).push(branch_glyph(is_next_last))
            } else {
                old(self).segs()
            }),
    {
        match &self.mode {
            PrefixMode::FileTree => {
                if is_dir {
                    self.prefix.pop();
                    self.prefix.pop();
                    if is_next_last {
                        self.prefix.push(get_tree_prefix(TreePrefix::EndLeaf));
                    } else {
                        self.prefix.push(get_tree_prefix(TreePrefix::Leaf));
                    }
                    proof {
                        assert(self.segs() =~= pop_seq(pop_seq(old(self).segs())).push(
                            branch_glyph(is_next_last),
                        ));
                    }
                }
            },
            PrefixMode::NoIndentation => {},
        }
    }

    /// The connectors drawn before an entry: all segments, concatenated in
    /// order.
    pub fn render(&self) -> (r: String)
        ensures
            r@ == crate::strutil::concat_segs(self.segs()),
    {
        let mut out = String::new();
        let mut i: usize = 0;
        proof {
            assert(self.segs().take(0) =~= Seq::<Seq<char>>::empty());
        }
        while i < self.prefix.len()
            invariant
                i <= self.prefix.len(),
                out@ == crate::strutil::concat_segs(self.segs().take(i as int)),
            decreases self.prefix.len() - i,
        {
            out.append(self.prefix[i].as_str());
            proof {
                assert(self.segs().take(i + 1).drop_last() =~= self.segs().take(i as int));
                assert(self.segs().take(i + 1).last() == self.segs()[i as int]);
            }
            i = i + 1;
        }
        proof {
            assert(self.segs().take(self.prefix.len() as int) =~= self.segs());
        }
        out
    }
}

/// Whether a display name counts as visible: it is hidden exactly when its
/// first character is a dot; a name without a first character is not
/// hidden.
pub open spec fn spec_visible(name: Seq<char>) -> bool {
    !(name.len() >= 1 && name[0] == '.')
}

/// One filesystem node: its path and display name, directory and
/// visibility flags, the path segment shown before the name when full-path
/// display is requested, the modification time known for it (`None` when
/// it could not be read), and the placeholder flag marking a node that
/// vanished before it could be examined.
pub struct Entry {
    pub path: String,
    pub is_dir: bool,
    pub is_visible: bool,
    pub path_prefix: String,
    pub entry_name: String,
    pub mtime: Option<i64>,
    pub is_empty: bool,
}

impl Entry {
    /// Builds the entry for an examined node (`exists` true), or a
    /// placeholder for one that vanished: a placeholder is never visible,
    /// never a directory, and carries an empty name.
    pub fn new(
        path: String,
        entry_name: String,
        path_prefix: String,
        is_dir: bool,
        mtime: Option<i64>,
        exists: bool,
    ) -> (e: Entry)
        ensures
            e.path@ == path@,
            e.path_prefix@ == path_prefix@,
            e.is_empty == !exists,
            exists ==> e.is_dir == is_dir && e.is_visible == spec_visible(entry_name@)
                && e.entry_name@ == entry_name@ && e.mtime == mtime,
            !exists ==> e.is_dir == false && e.is_visible == false && e.entry_name@ == Seq::<
                char,
            >::empty() && e.mtime is None,
    {
        if exists {
            let vis = visible_or_not(entry_name.as_str());
            Entry {
                path,
                is_dir,
                is_visible: vis,
                path_prefix,
                entry_name,
                mtime,
                is_empty: false,
            }
        } else {
            let e = Entry {
                path,
                is_dir: false,
                is_visible: false,
                path_prefix,
                entry_name: String::new(),
                mtime: None,
                is_empty: true,
            };
            e
        }
    }

    /// Whether the entry is a directory.
    pub fn is_dir(&self) -> (r: bool)
        ensures
            r == self.is_dir,
    {
        self.is_dir
    }

    /// The name the entry is printed under: the display name, behind the
    /// path segment when full-path display is on, the whole double-quoted
    /// when quoting is on.
    pub fn render_name(&self, setting: &crate::envir::Setting) -> (r: String)
        ensures
            r@ == spec_render_name(*self, *setting),
    {
        let mut base = if setting.is_full_path {
            let mut t = self.path_prefix.clone();
            t.append(self.entry_name.as_str());
            t
        } else {
            self.entry_name.clone()
        };
        if setting.is_quote {
            let mut q = String::from_str("\"");
            q.append(base.as_str());
            q.append("\"");
            q
        } else {
            base
        }
    }

    /// Whether the entry survives the configured filters: placeholders are
    /// always dropped; hidden entries are dropped unless show-all is on;
    /// non-directories are dropped when directories-only is on; and an
    /// active pattern keeps (include) or drops (exclude) entries whose
    /// name contains it, folding case when matching ignores case.
    pub fn filter(item: &Entry, setting: &crate::envir::Setting) -> (keep: bool)
        ensures
            keep == spec_filter(*item, *setting),
    {
        if item.is_empty {
            return false;
        }
        if !setting.is_all && !item.is_visible {
            return false;
        }
        if setting.is_dir_only && !item.is_dir {
            return false;
        }
        match setting.get_pattern() {
            Some((method, pattern, ignore_case)) => {
                let entry_name = if ignore_case {
                    crate::strutil::lowercase(item.entry_name.as_str())
                } else {
                    item.entry_name.clone()
                };
                let p = if ignore_case {
                    crate::strutil::lowercase(pattern.as_str())
                } else {
                    pattern
                };
                let found = crate::strutil::contains_str(entry_name.as_str(), p.as_str());
                if method == 'I' {
                    !found
                } else {
                    found
                }
            },
            None => true,
        }
    }
}

/// The rendered name of an entry under a configuration.
pub open spec fn spec_render_name(e: Entry, s: crate::envir::Setting) -> Seq<char> {
    let base = if s.is_full_path {
        e.path_prefix@ + e.entry_name@
    } else {
        e.entry_name@
    };
    if s.is_quote {
        "\""@ + base + "\""@
    } else {
        base
    }
}

/// The name an active pattern is matched against, and the pattern text it
/// is matched with: both are folded to lowercase when matching ignores
/// case (the pattern, already folded once when it was fetched, is folded
/// again, as fetching and matching each fold it).
pub open spec fn spec_pattern_pair(e: Entry, s: crate::envir::Setting) -> (Seq<char>, Seq<char>) {
    let fetched = if s.pattern_ignore_case {
        crate::strutil::lower_of(s.pattern@)
    } else {
        s.pattern@
    };
    if s.pattern_ignore_case {
        (
            crate::strutil::lower_of(e.entry_name@),
            crate::strutil::lower_of(fetched),
        )
    } else {
        (e.entry_name@, fetched)
    }
}

/// Whether an entry survives the configured filters.
pub open spec fn spec_filter(e: Entry, s: crate::envir::Setting) -> bool {
    if e.is_empty {
        false
    } else if !s.is_all && !e.is_visible {
        false
    } else if s.is_dir_only && !e.is_dir {
        false
    } else if s.pattern_p || s.pattern_i {
        let pair = spec_pattern_pair(e, s);
        if s.pattern_p {
            crate::strutil::contains_sub(pair.0, pair.1)
        } else {
            !crate::strutil::contains_sub(pair.0, pair.1)
        }
    } else {
        true
    }
}

/// Whether a display name counts as visible.
pub fn visible_or_not(name: &str) -> (r: bool)
    ensures
        r == spec_visible(name@),
{
    let len = name.unicode_len();
    if len >= 1 && name.get_char(0) == '.' {
        false
    } else {
        true
    }
}

} // verus!
