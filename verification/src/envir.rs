//! The configuration: an immutable value resolved once before a render and
//! passed by reference into the walker, filter and sorter.

use vstd::prelude::*;
use crate::strutil::{
    lower_of, lowercase, spec_parse_i32, spec_parse_u32, parse_i32, parse_u32, str_eq,
};

verus! {

/// All settings a render consumes.  Paths and numeric arguments are kept as
/// plain strings, exactly as they were given; the getters interpret them.
pub struct Setting {
    pub is_all: bool,
    pub is_dir_only: bool,
    pub is_no_indentation: bool,
    pub is_sort_alphanumerically: bool,
    pub is_sort_mod_time: bool,
    pub is_unsort: bool,
    pub is_sort_reverse: bool,
    pub is_dir_first: bool,
    pub is_needing_report: bool,
    pub pattern_p: bool,
    pub pattern_i: bool,
    pub is_quote: bool,
    pub is_full_path: bool,
    pub pattern_ignore_case: bool,
    pub is_color: bool,
    pub need_protection: bool,
    pub need_uid: bool,
    pub need_gid: bool,
    pub need_size: u8,
    pub need_ctime: bool,
    pub need_inode: bool,
    pub need_device: bool,
    pub is_level_limited: bool,
    pub is_file_number_limited: bool,
    pub pattern: String,
    pub level: String,
    pub max_files: String,
    pub root: String,
}

impl Default for Setting {
    /// The default configuration: sort alphanumerically, report counts at
    /// the end, everything else off, every string empty.
    fn default() -> (s: Setting)
        ensures
            s.is_all == false,
            s.is_dir_only == false,
            s.is_no_indentation == false,
            s.is_sort_alphanumerically == true,
            s.is_sort_mod_time == false,
            s.is_unsort == false,
            s.is_sort_reverse == false,
            s.is_dir_first == false,
            s.is_needing_report == true,
            s.pattern_p == false,
            s.pattern_i == false,
            s.is_quote == false,
            s.is_full_path == false,
            s.pattern_ignore_case == false,
            s.is_color == false,
            s.need_protection == false,
            s.need_uid == false,
            s.need_gid == false,
            s.need_size == 0,
            s.need_ctime == false,
            s.need_inode == false,
            s.need_device == false,
            s.is_level_limited == false,
            s.is_file_number_limited == false,
            s.pattern@ == Seq::<char>::empty(),
            s.level@ == Seq::<char>::empty(),
            s.max_files@ == Seq::<char>::empty(),
            s.root@ == Seq::<char>::empty(),
    {
        let s = Setting {
            is_all: false,
            is_dir_only: false,
            is_no_indentation: false,
            is_sort_alphanumerically: true,
            is_sort_mod_time: false,
            is_unsort: false,
            is_sort_reverse: false,
            is_dir_first: false,
            is_needing_report: true,
            pattern_p: false,
            pattern_i: false,
            is_quote: false,
            is_full_path: false,
            pattern_ignore_case: false,
            is_color: false,
            need_protection: false,
            need_uid: false,
            need_gid: false,
            need_size: 0,
            need_ctime: false,
            need_inode: false,
            need_device: false,
            is_level_limited: false,
            is_file_number_limited: false,
            pattern: String::new(),
            level: String::new(),
            max_files: String::new(),
            root: String::new(),
        };
        s
    }
}

/// The position of the last occurrence of `c` in `s`, or `-1` when absent.
pub open spec fn find_last(s: Seq<char>, c: char) -> int
    decreases s.len(),
{
    if s.len() == 0 {
        -1
    } else if s.last() == c {
        s.len() - 1
    } else {
        find_last(s.drop_last(), c)
    }
}

proof fn lemma_find_last(s: Seq<char>, c: char)
    ensures
        -1 <= find_last(s, c) < s.len(),
        find_last(s, c) >= 0 ==> s[find_last(s, c)] == c,
        forall|j: int| find_last(s, c) < j < s.len() ==> s[j] != c,
    decreases s.len(),
{
    if s.len() > 0 && s.last() != c {
        lemma_find_last(s.drop_last(), c);
        assert forall|j: int| find_last(s, c) < j < s.len() implies s[j] != c by {
            if j < s.len() - 1 {
                assert(s.drop_last()[j] == s[j]);
                assert(s.drop_last()[j] != c);
            }
        }
    }
}

/// The parent of a canonical path string, as `Path::parent` resolves it:
/// everything before the last separator; the lone root separator is its own
/// result, and a path without a parent falls back to the root separator.
pub open spec fn spec_parent(s: Seq<char>) -> Seq<char> {
    let j = find_last(s, '/');
    if s.len() == 0 || (s.len() == 1 && s[0] == '/') {
        seq!['/']
    } else if j == -1 {
        Seq::empty()
    } else if j == 0 {
        seq!['/']
    } else {
        s.subrange(0, j)
    }
}

impl Setting {
    /// The root path to render, as given.
    pub fn get_root(&self) -> (r: String)
        ensures
            r@ == self.root@,
    {
        self.root.clone()
    }

    /// The parent of the root path: the prefix that full-path display
    /// strips from each entry's path.
    pub fn get_root_prefix(&self) -> (r: String)
        ensures
            r@ == spec_parent(self.root@),
    {
        proof {
            lemma_find_last(self.root@, '/');
        }
        let len = self.root.as_str().unicode_len();
        if len == 0 || (len == 1 && self.root.as_str().get_char(0) == '/') {
            let r = String::from_str("/");
            proof {
                reveal_strlit("/");
                assert(r@ =~= seq!['/']);
            }
            return r;
        }
        let mut j: usize = len;
        let mut found: bool = false;
        while j > 0 && !found
            invariant
                j <= len,
                len == self.root@.len(),
                !found ==> forall|k: int| j <= k < len ==> self.root@[k] != '/',
                found ==> j < len && self.root@[j as int] == '/' && forall|k: int|
                    j < k < len ==> self.root@[k] != '/',
            decreases j + (if found { 0int } else { 1int }),
        {
            if self.root.as_str().get_char(j - 1) == '/' {
                j = j - 1;
                found = true;
            } else {
                j = j - 1;
            }
        }
        if !found {
            proof {
                assert(find_last(self.root@, '/') == -1) by {
                    if find_last(self.root@, '/') >= 0 {
                        assert(self.root@[find_last(self.root@, '/')] == '/');
                    }
                }
            }
            return String::new();
        }
        proof {
            assert(find_last(self.root@, '/') == j as int) by {
                let f = find_last(self.root@, '/');
                if f < j as int {
                    assert(self.root@[j as int] == '/');
                }
                if f > j as int {
                    assert(self.root@[f] == '/');
                }
            }
        }
        if j == 0 {
            let r = String::from_str("/");
            proof {
                reveal_strlit("/");
                assert(r@ =~= seq!['/']);
            }
            r
        } else {
            self.root.as_str().substring_char(0, j).to_owned()
        }
    }

    /// The active pattern, if any: its mode (`'P'` include, `'I'` exclude),
    /// its text (folded to lowercase when matching ignores case), and the
    /// ignore-case flag.
    pub fn get_pattern(&self) -> (r: Option<(char, String, bool)>)
        ensures
            !(self.pattern_p || self.pattern_i) ==> r is None,
            (self.pattern_p || self.pattern_i) ==> (r matches Some(t) && t.0 == (
            if self.pattern_p {
                'P'
            } else {
                'I'
            }) && t.1@ == (if self.pattern_ignore_case {
                lower_of(self.pattern@)
            } else {
                self.pattern@
            }) && t.2 == self.pattern_ignore_case),
    {
        if !(self.pattern_p || self.pattern_i) {
            None
        } else {
            let mode = if self.pattern_p {
                'P'
            } else {
                'I'
            };
            let text = if self.pattern_ignore_case {
                lowercase(self.pattern.as_str())
            } else {
                self.pattern.clone()
            };
            Some((mode, text, self.pattern_ignore_case))
        }
    }

    /// The depth budget: `-1` (unlimited) when no level limit was asked
    /// for, else the numeric value of the level argument, which must parse.
    pub fn get_level(&self) -> (r: i32)
        requires
            self.is_level_limited ==> spec_parse_i32(self.level@) is Some,
        ensures
            !self.is_level_limited ==> r == -1,
            self.is_level_limited ==> Some(r) == spec_parse_i32(self.level@),
    {
        if !self.is_level_limited {
            return -1;
        }
        match parse_i32(self.level.as_str()) {
            Some(v) => v,
            None => 0,
        }
    }

    /// The file-number limit, which must have been asked for and must parse.
    pub fn get_max_files(&self) -> (r: u32)
        requires
            self.is_file_number_limited,
            spec_parse_u32(self.max_files@) is Some,
        ensures
            Some(r) == spec_parse_u32(self.max_files@),
    {
        match parse_u32(self.max_files.as_str()) {
            Some(v) => v,
            None => 0,
        }
    }
}

/// The character sequences of a sequence of strings.
pub open spec fn strs_view(s: Seq<String>) -> Seq<Seq<char>> {
    s.map_values(|x: String| x@)
}

/// Whether a decomposed flag takes an extra parameter.
pub open spec fn spec_need_extra(f: Seq<char>) -> bool {
    ||| f == "H"@
    ||| f == "T"@
    ||| f == "L"@
    ||| f == "P"@
    ||| f == "I"@
    ||| f == "o"@
    ||| f == "charset"@
    ||| f == "filelimit"@
    ||| f == "timefmt"@
    ||| f == "sort"@
}

/// Whether a decomposed flag expects an extra parameter after it.
pub fn need_extra_para(flag: &String) -> (r: bool)
    ensures
        r == spec_need_extra(flag@),
{
    let f = flag.as_str();
    str_eq(f, "H") || str_eq(f, "T") || str_eq(f, "L") || str_eq(f, "P") || str_eq(f, "I")
        || str_eq(f, "o") || str_eq(f, "charset") || str_eq(f, "filelimit") || str_eq(
        f,
        "timefmt",
    ) || str_eq(f, "sort")
}

/// Pushes one decomposed flag, noting whether the next argument must be its
/// parameter; refuses a flag where a parameter is still owed.
pub fn vec_push_hook(vec: &mut Vec<String>, item: &String, expect_pattern: &mut bool) -> (r: Result<
    (),
    (),
>)
    ensures
        *old(expect_pattern) ==> r is Err && final(vec)@ == old(vec)@ && *final(expect_pattern)
            == *old(expect_pattern),
        !*old(expect_pattern) ==> r is Ok && strs_view(final(vec)@) == strs_view(
            old(vec)@,
        ).push(item@) && *final(expect_pattern) == spec_need_extra(item@),
{
    if *expect_pattern {
        return Err(());
    }
    if need_extra_para(item) {
        *expect_pattern = true;
    }
    vec.push(item.clone());
    proof {
        assert(strs_view(vec@) =~= strs_view(old(vec)@).push(item@));
    }
    Ok(())
}

/// Pushes the single-character flags of a bundled argument (the characters
/// after its leading dash), one at a time, from position `j` on.  `None`
/// when a flag lands where a parameter is owed.
pub open spec fn spec_push_abbrs(s: Seq<char>, j: int, acc: Seq<Seq<char>>, expect: bool) -> Option<
    (Seq<Seq<char>>, bool),
>
    decreases s.len() - j,
{
    if !(0 <= j < s.len()) {
        Some((acc, expect))
    } else if expect {
        None
    } else {
        spec_push_abbrs(s, j + 1, acc.push(seq![s[j]]), spec_need_extra(seq![s[j]]))
    }
}

/// Decomposes raw arguments from position `k` on: a `--x` argument becomes
/// the flag `x`, a `-abc` argument the flags `a`, `b`, `c`, and a bare
/// argument is the parameter owed to the flag before it; anything else
/// fails, as does a flag standing where a parameter is owed.
pub open spec fn spec_decompose_from(
    args: Seq<Seq<char>>,
    k: int,
    acc: Seq<Seq<char>>,
    expect: bool,
) -> Option<Seq<Seq<char>>>
    decreases args.len() - k,
{
    if !(0 <= k < args.len()) {
        Some(acc)
    } else {
        let a = args[k];
        if a.len() >= 2 && a[0] == '-' && a[1] == '-' {
            if expect {
                None
            } else {
                let sub = a.subrange(2, a.len() as int);
                spec_decompose_from(args, k + 1, acc.push(sub), spec_need_extra(sub))
            }
        } else if a.len() >= 1 && a[0] == '-' {
            let sub = a.subrange(1, a.len() as int);
            match spec_push_abbrs(sub, 0, acc, expect) {
                Some(st) => spec_decompose_from(args, k + 1, st.0, st.1),
                None => None,
            }
        } else if expect {
            spec_decompose_from(args, k + 1, acc.push(a), false)
        } else {
            None
        }
    }
}

/// The decomposed form of a raw argument list.
pub open spec fn spec_decompose(args: Seq<Seq<char>>) -> Option<Seq<Seq<char>>> {
    spec_decompose_from(args, 0, Seq::empty(), false)
}

/// Splits raw command-line arguments into single flags and their
/// parameters.
pub fn decompose_arg(args: &Vec<String>) -> (r: Result<Vec<String>, ()>)
    ensures
        match spec_decompose(strs_view(args@)) {
            Some(v) => r matches Ok(rv) && strs_view(rv@) == v,
            None => r is Err,
        },
{
    let ghost gargs = strs_view(args@);
    let mut expect_pattern: bool = false;
    let mut ret_args: Vec<String> = Vec::new();
    let mut idx: usize = 0;
    proof {
        assert(strs_view(ret_args@) =~= Seq::<Seq<char>>::empty());
    }
    while idx < args.len()
        invariant
            idx <= args.len(),
            gargs == strs_view(args@),
            gargs.len() == args@.len(),
            spec_decompose_from(gargs, idx as int, strs_view(ret_args@), expect_pattern)
                == spec_decompose(gargs),
        decreases args.len() - idx,
    {
        let arg = &args[idx];
        proof {
            assert(gargs[idx as int] == arg@);
        }
        let alen = arg.as_str().unicode_len();
        if alen >= 2 && arg.as_str().get_char(0) == '-' && arg.as_str().get_char(1) == '-' {
            let substr = arg.as_str().substring_char(2, alen).to_owned();
            match vec_push_hook(&mut ret_args, &substr, &mut expect_pattern) {
                Ok(u) => u,
                Err(e) => {
                    return Err(e);
                },
            }
        } else if alen >= 1 && arg.as_str().get_char(0) == '-' {
            let ghost sub = arg@.subrange(1, arg@.len() as int);
            let ghost acc0 = strs_view(ret_args@);
            let ghost expect0 = expect_pattern;
            let mut j: usize = 1;
            while j < alen
                invariant
                    1 <= j <= alen,
                    alen == arg@.len(),
                    sub == arg@.subrange(1, arg@.len() as int),
                    spec_push_abbrs(sub, j - 1, strs_view(ret_args@), expect_pattern)
                        == spec_push_abbrs(sub, 0, acc0, expect0),
                decreases alen - j,
            {
                let abbr = arg.as_str().substring_char(j, j + 1).to_owned();
                proof {
                    assert(abbr@ =~= seq![sub[j - 1]]);
                }
                match vec_push_hook(&mut ret_args, &abbr, &mut expect_pattern) {
                    Ok(u) => u,
                    Err(e) => {
                        return Err(e);
                    },
                }
                j = j + 1;
            }
            proof {
                assert(spec_push_abbrs(sub, j - 1, strs_view(ret_args@), expect_pattern) == Some(
                    (strs_view(ret_args@), expect_pattern),
                ));
            }
        } else if expect_pattern {
            let ghost accb = strs_view(ret_args@);
            ret_args.push(arg.clone());
            expect_pattern = false;
            proof {
                assert(strs_view(ret_args@) =~= accb.push(arg@));
            }
        } else {
            return Err(());
        }
        idx = idx + 1;
    }
    Ok(ret_args)
}

/// What applying decomposed flags to a configuration comes to.
pub enum ApplyOutcome {
    /// Every flag applied; the finished configuration.
    Done(Setting),
    /// The help flag was given.
    Help,
    /// The version flag was given.
    Version,
    /// An unknown flag; it is carried along for the error report.
    Invalid(String),
    /// A flag that takes a parameter stood last, with none following.
    MissingParam,
}

/// The outcome of applying a decomposed flag list, at the spec level.
pub ghost enum ApplyModel {
    DoneM,
    HelpM,
    VersionM,
    InvalidM(Seq<char>),
    MissingParamM,
}

/// The code of a decomposed flag: one small number per recognised flag.
/// Codes below 22 are flags that only switch a field; codes 22 through 25
/// take the following argument as parameter; 26 and 27 are the help and
/// version flags; 28 is an unrecognised flag.
pub open spec fn spec_flag_code(f: Seq<char>) -> int {
    if f == "a"@ {
        0
    } else if f == "d"@ {
        1
    } else if f == "i"@ {
        2
    } else if f == "v"@ {
        3
    } else if f == "t"@ {
        4
    } else if f == "U"@ {
        5
    } else if f == "r"@ {
        6
    } else if f == "dirsfirst"@ {
        7
    } else if f == "noreport"@ {
        8
    } else if f == "ignore-case"@ {
        9
    } else if f == "Q"@ {
        10
    } else if f == "f"@ {
        11
    } else if f == "C"@ {
        12
    } else if f == "p"@ {
        13
    } else if f == "u"@ {
        14
    } else if f == "g"@ {
        15
    } else if f == "D"@ {
        16
    } else if f == "inodes"@ {
        17
    } else if f == "device"@ {
        18
    } else if f == "s"@ {
        19
    } else if f == "h"@ {
        20
    } else if f == "si"@ {
        21
    } else if f == "P"@ {
        22
    } else if f == "I"@ {
        23
    } else if f == "L"@ {
        24
    } else if f == "filelimit"@ {
        25
    } else if f == "help"@ {
        26
    } else if f == "version"@ {
        27
    } else {
        28
    }
}

/// Finds the code of a decomposed flag.
fn flag_code(flag: &String) -> (c: usize)
    ensures
        c as int == spec_flag_code(flag@),
{
    let f = flag.as_str();
    if str_eq(f, "a") {
        0
    } else if str_eq(f, "d") {
        1
    } else if str_eq(f, "i") {
        2
    } else if str_eq(f, "v") {
        3
    } else if str_eq(f, "t") {
        4
    } else if str_eq(f, "U") {
        5
    } else if str_eq(f, "r") {
        6
    } else if str_eq(f, "dirsfirst") {
        7
    } else if str_eq(f, "noreport") {
        8
    } else if str_eq(f, "ignore-case") {
        9
    } else if str_eq(f, "Q") {
        10
    } else if str_eq(f, "f") {
        11
    } else if str_eq(f, "C") {
        12
    } else if str_eq(f, "p") {
        13
    } else if str_eq(f, "u") {
        14
    } else if str_eq(f, "g") {
        15
    } else if str_eq(f, "D") {
        16
    } else if str_eq(f, "inodes") {
        17
    } else if str_eq(f, "device") {
        18
    } else if str_eq(f, "s") {
        19
    } else if str_eq(f, "h") {
        20
    } else if str_eq(f, "si") {
        21
    } else if str_eq(f, "P") {
        22
    } else if str_eq(f, "I") {
        23
    } else if str_eq(f, "L") {
        24
    } else if str_eq(f, "filelimit") {
        25
    } else if str_eq(f, "help") {
        26
    } else if str_eq(f, "version") {
        27
    } else {
        28
    }
}

/// How applying the decomposed flags from position `k` on ends: normally,
/// with the help or version flag, at an unrecognised flag, or at a
/// parameter-taking flag that stands last with no parameter after it.
pub open spec fn spec_apply_outcome(args: Seq<Seq<char>>, k: int) -> ApplyModel
    decreases args.len() - k,
{
    if !(0 <= k < args.len()) {
        ApplyModel::DoneM
    } else {
        let c = spec_flag_code(args[k]);
        if c < 22 {
            spec_apply_outcome(args, k + 1)
        } else if c < 26 {
            if k + 1 < args.len() {
                spec_apply_outcome(args, k + 2)
            } else {
                ApplyModel::MissingParamM
            }
        } else if c == 26 {
            ApplyModel::HelpM
        } else if c == 27 {
            ApplyModel::VersionM
        } else {
            ApplyModel::InvalidM(args[k])
        }
    }
}

/// Applies a decomposed flag list to the default configuration: each
/// parameterless flag switches its field, each pattern flag takes the
/// following argument as its text and clears the opposite pattern mode,
/// and the level and file-limit flags keep their arguments as strings for
/// the getters to interpret.  The root path is no flag and stays
/// untouched: the caller fills it in.
pub fn apply_args(args: &Vec<String>) -> (r: ApplyOutcome)
    ensures
        match spec_apply_outcome(strs_view(args@), 0) {
            ApplyModel::DoneM => r is Done,
            ApplyModel::HelpM => r is Help,
            ApplyModel::VersionM => r is Version,
            ApplyModel::InvalidM(f) => r matches ApplyOutcome::Invalid(x) && x@ == f,
            ApplyModel::MissingParamM => r is MissingParam,
        },
{
    let ghost gargs = strs_view(args@);
    let mut ret = Setting::default();
    let mut idx: usize = 0;
    while idx < args.len()
        invariant
            idx <= args.len(),
            gargs == strs_view(args@),
            gargs.len() == args@.len(),
            spec_apply_outcome(gargs, idx as int) == spec_apply_outcome(gargs, 0),
        decreases args.len() - idx,
    {
        let flag = &args[idx];
        proof {
            assert(gargs[idx as int] == flag@);
        }
        let code = flag_code(flag);
        if code < 22 {
            if code == 0 {
                ret.is_all = true;
            } else if code == 1 {
                ret.is_dir_only = true;
            } else if code == 2 {
                ret.is_no_indentation = true;
            } else if code == 3 {
                ret.is_sort_alphanumerically = true;
            } else if code == 4 {
                ret.is_sort_mod_time = true;
            } else if code == 5 {
                ret.is_unsort = true;
            } else if code == 6 {
                ret.is_sort_reverse = true;
            } else if code == 7 {
                ret.is_dir_first = true;
            } else if code == 8 {
                ret.is_needing_report = false;
            } else if code == 9 {
                ret.pattern_ignore_case = true;
            } else if code == 10 {
                ret.is_quote = true;
            } else if code == 11 {
                ret.is_full_path = true;
            } else if code == 12 {
                ret.is_color = true;
            } else if code == 13 {
                ret.need_protection = true;
            } else if code == 14 {
                ret.need_uid = true;
            } else if code == 15 {
                ret.need_gid = true;
            } else if code == 16 {
                ret.need_ctime = true;
            } else if code == 17 {
                ret.need_inode = true;
            } else if code == 18 {
                ret.need_device = true;
            } else if code == 19 {
                ret.need_size = 1;
            } else if code == 20 {
                ret.need_size = 2;
            } else {
                ret.need_size = 3;
            }
            idx = idx + 1;
        } else if code < 26 {
            if idx + 1 < args.len() {
                let param = args[idx + 1].clone();
                if code == 22 {
                    ret.pattern_p = true;
                    ret.pattern_i = false;
                    ret.pattern = param;
                } else if code == 23 {
                    ret.pattern_i = true;
                    ret.pattern_p = false;
                    ret.pattern = param;
                } else if code == 24 {
                    ret.is_level_limited = true;
                    ret.level = param;
                } else {
                    ret.is_file_number_limited = true;
                    ret.max_files = param;
                }
                idx = idx + 2;
            } else {
                return ApplyOutcome::MissingParam;
            }
        } else if code == 26 {
            return ApplyOutcome::Help;
        } else if code == 27 {
            return ApplyOutcome::Version;
        } else {
            return ApplyOutcome::Invalid(flag.clone());
        }
    }
    ApplyOutcome::Done(ret)
}

} // verus!
