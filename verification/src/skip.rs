//! The skip filter: decides from the path text alone whether a path is
//! excluded from scanning, before any I/O touches it.
//!
//! A path is modelled as its text, with `/` separating components. A
//! component is a maximal run of non-separator characters; the file name is
//! the last component; the extension is what follows the last dot of the
//! file name, provided that dot is not the name's first character.
use vstd::prelude::*;

use crate::args::Args;

verus! {

/// The character separating path components.
pub open spec fn is_sep(c: char) -> bool {
    c == '/'
}

/// `p[i..j]` is one component of the path `p`: a maximal non-empty run of
/// non-separator characters.
pub open spec fn is_component(p: Seq<char>, i: int, j: int) -> bool {
    &&& 0 <= i < j <= p.len()
    &&& (i == 0 || is_sep(p[i - 1]))
    &&& (j == p.len() || is_sep(p[j]))
    &&& forall|k: int| i <= k < j ==> !is_sep(#[trigger] p[k])
}

/// `p[i..j]` is the path's file name: its last component, with nothing but
/// separators after it.
pub open spec fn is_file_name(p: Seq<char>, i: int, j: int) -> bool {
    &&& is_component(p, i, j)
    &&& forall|k: int| j <= k < p.len() ==> is_sep(#[trigger] p[k])
}

/// `d` is the index of the dot introducing the extension of the file name
/// `p[i..j]`: the name's last dot, and not its first character.
pub open spec fn is_ext_dot(p: Seq<char>, i: int, j: int, d: int) -> bool {
    &&& is_file_name(p, i, j)
    &&& i < d < j
    &&& p[d] == '.'
    &&& forall|k: int| d < k < j ==> #[trigger] p[k] != '.'
}

/// The code point of `c` with ASCII upper-case letters folded to lower case.
pub open spec fn lower_code(c: char) -> int {
    if 65 <= c as int && (c as int) <= 90 {
        c as int + 32
    } else {
        c as int
    }
}

/// Equality of two character sequences up to ASCII case.
pub open spec fn eq_ignore_ascii_case(a: Seq<char>, b: Seq<char>) -> bool {
    &&& a.len() == b.len()
    &&& forall|t: int|
        0 <= t < a.len() ==> lower_code(#[trigger] a[t]) == lower_code(
            #[trigger] b[t],
        )
}

/// A user-supplied extension pattern with its leading dots removed.
pub open spec fn trim_dots(s: Seq<char>) -> Seq<char>
    decreases s.len(),
{
    if s.len() > 0 && s[0] == '.' {
        trim_dots(s.drop_first())
    } else {
        s
    }
}

/// Whether the extension `e` is one of the extensions skipped by default.
pub open spec fn default_ext_match(e: Seq<char>) -> bool {
    ||| eq_ignore_ascii_case(e, "pyc"@)
    ||| eq_ignore_ascii_case(e, "exe"@)
    ||| eq_ignore_ascii_case(e, "dll"@)
    ||| eq_ignore_ascii_case(e, "so"@)
    ||| eq_ignore_ascii_case(e, "dylib"@)
    ||| eq_ignore_ascii_case(e, "json"@)
    ||| eq_ignore_ascii_case(e, "jpg"@)
    ||| eq_ignore_ascii_case(e, "jpeg"@)
    ||| eq_ignore_ascii_case(e, "png"@)
    ||| eq_ignore_ascii_case(e, "gif"@)
    ||| eq_ignore_ascii_case(e, "ico"@)
    ||| eq_ignore_ascii_case(e, "svg"@)
    ||| eq_ignore_ascii_case(e, "pdf"@)
    ||| eq_ignore_ascii_case(e, "zip"@)
    ||| eq_ignore_ascii_case(e, "tar"@)
    ||| eq_ignore_ascii_case(e, "gz"@)
    ||| eq_ignore_ascii_case(e, "7z"@)
    ||| eq_ignore_ascii_case(e, "webp"@)
    ||| eq_ignore_ascii_case(e, "mp3"@)
    ||| eq_ignore_ascii_case(e, "mp4"@)
    ||| eq_ignore_ascii_case(e, "avi"@)
    ||| eq_ignore_ascii_case(e, "mov"@)
    ||| eq_ignore_ascii_case(e, "yaml"@)
    ||| eq_ignore_ascii_case(e, "jar"@)
    ||| eq_ignore_ascii_case(e, "ttf"@)
    ||| eq_ignore_ascii_case(e, "woff"@)
    ||| eq_ignore_ascii_case(e, "woff2"@)
    ||| eq_ignore_ascii_case(e, "ipynb"@)
    ||| eq_ignore_ascii_case(e, "pkl"@)
    ||| eq_ignore_ascii_case(e, "h5"@)
    ||| eq_ignore_ascii_case(e, "model"@)
    ||| eq_ignore_ascii_case(e, "txt"@)
    ||| eq_ignore_ascii_case(e, "class"@)
    ||| eq_ignore_ascii_case(e, "tree"@)
    ||| eq_ignore_ascii_case(e, "map"@)
    ||| eq_ignore_ascii_case(e, "debug"@)
}

/// Whether the component `d` is one of the directory names skipped by
/// default.
pub open spec fn default_dir_match(d: Seq<char>) -> bool {
    ||| d == "node_modules"@
    ||| d == "venv"@
    ||| d == "env"@
    ||| d == ".git"@
    ||| d == ".svelte-kit"@
    ||| d == ".mvn"@
    ||| d == "__pycache__"@
    ||| d == "build"@
    ||| d == "dist"@
    ||| d == ".idea"@
    ||| d == ".husky"@
    ||| d == ".turbo"@
    ||| d == "target"@
    ||| d == ".vscode"@
}

/// Whether the extension `e` matches the default skip list or one of the
/// user's patterns, compared without regard to ASCII case and with the
/// patterns' leading dots ignored.
pub open spec fn ext_matches(e: Seq<char>, user_exts: Seq<Seq<char>>) -> bool {
    ||| default_ext_match(e)
    ||| exists|k: int|
        0 <= k < user_exts.len() && eq_ignore_ascii_case(
            e,
            trim_dots(#[trigger] user_exts[k]),
        )
}

/// Whether the component `d` matches the default directory skip list or one
/// of the user's directory names, compared exactly.
pub open spec fn dir_matches(d: Seq<char>, user_dirs: Seq<Seq<char>>) -> bool {
    ||| default_dir_match(d)
    ||| exists|k: int| 0 <= k < user_dirs.len() && #[trigger] user_dirs[k] == d
}

/// Whether the path `p` carries an extension that matches the skip lists.
pub open spec fn ext_skip(p: Seq<char>, user_exts: Seq<Seq<char>>) -> bool {
    exists|i: int, j: int, d: int|
        #[trigger] is_ext_dot(p, i, j, d) && ext_matches(
            p.subrange(d + 1, j),
            user_exts,
        )
}

/// Whether any component of the path `p` matches the skipped directory
/// names. A component matches wherever it stands, so everything below a
/// skipped directory is excluded with it.
pub open spec fn dir_skip(p: Seq<char>, user_dirs: Seq<Seq<char>>) -> bool {
    exists|i: int, j: int|
        #[trigger] is_component(p, i, j) && dir_matches(
            p.subrange(i, j),
            user_dirs,
        )
}

/// The skip filter's whole decision: a path is skipped when its extension
/// matches a skipped extension, or when any of its components matches a
/// skipped directory name.
pub open spec fn spec_should_skip(
    p: Seq<char>,
    user_exts: Seq<Seq<char>>,
    user_dirs: Seq<Seq<char>>,
) -> bool {
    ext_skip(p, user_exts) || dir_skip(p, user_dirs)
}

/// The characters of `s`, in order, as a vector.
fn to_char_vec(s: &str) -> (r: Vec<char>)
    ensures
        r@ == s@,
{
    let n = s.unicode_len();
    let mut r: Vec<char> = Vec::new();
    let mut i: usize = 0;
    while i < n
        invariant
            i <= n,
            n == s@.len(),
            r@ == s@.take(i as int),
        decreases n - i,
    {
        let c = s.get_char(i);
        proof {
            assert(s@.take(i as int + 1) =~= s@.take(i as int).push(c));
        }
        r.push(c);
        i += 1;
    }
    proof {
        assert(s@.take(n as int) =~= s@);
    }
    r
}

/// The code point of `c`, with ASCII upper-case letters folded.
fn lower_exec(c: char) -> (r: u32)
    ensures
        r as int == lower_code(c),
{
    let code = c as u32;
    if 65 <= code && code <= 90 {
        code + 32
    } else {
        code
    }
}

/// Compares `chars[lo..hi]` with the literal `s`, folding ASCII case.
fn eq_ic_range_str(chars: &Vec<char>, lo: usize, hi: usize, s: &str) -> (r:
    bool)
    requires
        lo <= hi <= chars@.len(),
    ensures
        r == eq_ignore_ascii_case(chars@.subrange(lo as int, hi as int), s@),
{
    let ghost e = chars@.subrange(lo as int, hi as int);
    let m = s.unicode_len();
    if m != hi - lo {
        return false;
    }
    let mut q: usize = 0;
    while q < m
        invariant
            q <= m,
            m == s@.len(),
            hi - lo == m,
            lo <= hi <= chars@.len(),
            e == chars@.subrange(lo as int, hi as int),
            forall|t: int|
                0 <= t < q ==> lower_code(#[trigger] e[t]) == lower_code(
                    s@[t],
                ),
        decreases m - q,
    {
        let a = chars[lo + q];
        let b = s.get_char(q);
        if lower_exec(a) != lower_exec(b) {
            proof {
                assert(e[q as int] == chars@[lo + q as int]);
            }
            return false;
        }
        q += 1;
    }
    true
}

/// Compares `chars[lo..hi]` with `pat[plo..]`, folding ASCII case.
fn eq_ic_range_range(
    chars: &Vec<char>,
    lo: usize,
    hi: usize,
    pat: &Vec<char>,
    plo: usize,
) -> (r: bool)
    requires
        lo <= hi <= chars@.len(),
        plo <= pat@.len(),
    ensures
        r == eq_ignore_ascii_case(
            chars@.subrange(lo as int, hi as int),
            pat@.subrange(plo as int, pat@.len() as int),
        ),
{
    let ghost e = chars@.subrange(lo as int, hi as int);
    let ghost f = pat@.subrange(plo as int, pat@.len() as int);
    let m = pat.len() - plo;
    if m != hi - lo {
        return false;
    }
    let mut q: usize = 0;
    while q < m
        invariant
            q <= m,
            m == f.len(),
            hi - lo == m,
            lo <= hi <= chars@.len(),
            plo + m == pat@.len(),
            plo + m <= usize::MAX,
            e == chars@.subrange(lo as int, hi as int),
            f == pat@.subrange(plo as int, pat@.len() as int),
            forall|t: int|
                0 <= t < q ==> lower_code(#[trigger] e[t]) == lower_code(
                    f[t],
                ),
        decreases m - q,
    {
        let a = chars[lo + q];
        let b = pat[plo + q];
        if lower_exec(a) != lower_exec(b) {
            proof {
                assert(e[q as int] == chars@[lo + q as int]);
                assert(f[q as int] == pat@[plo + q as int]);
            }
            return false;
        }
        q += 1;
    }
    true
}

/// Compares `chars[lo..hi]` with the literal `s`, exactly.
fn eq_range_str(chars: &Vec<char>, lo: usize, hi: usize, s: &str) -> (r: bool)
    requires
        lo <= hi <= chars@.len(),
    ensures
        r == (chars@.subrange(lo as int, hi as int) == s@),
{
    let ghost e = chars@.subrange(lo as int, hi as int);
    let m = s.unicode_len();
    if m != hi - lo {
        return false;
    }
    let mut q: usize = 0;
    while q < m
        invariant
            q <= m,
            m == s@.len(),
            hi - lo == m,
            lo <= hi <= chars@.len(),
            e == chars@.subrange(lo as int, hi as int),
            forall|t: int| 0 <= t < q ==> #[trigger] e[t] == s@[t],
        decreases m - q,
    {
        let a = chars[lo + q];
        let b = s.get_char(q);
        if a != b {
            proof {
                assert(e[q as int] == chars@[lo + q as int]);
            }
            return false;
        }
        q += 1;
    }
    proof {
        assert(e =~= s@);
    }
    true
}

/// Compares `chars[lo..hi]` with the whole of `pat`, exactly.
fn eq_range_vec(chars: &Vec<char>, lo: usize, hi: usize, pat: &Vec<char>) -> (r:
    bool)
    requires
        lo <= hi <= chars@.len(),
    ensures
        r == (chars@.subrange(lo as int, hi as int) == pat@),
{
    let ghost e = chars@.subrange(lo as int, hi as int);
    let m = pat.len();
    if m != hi - lo {
        return false;
    }
    let mut q: usize = 0;
    while q < m
        invariant
            q <= m,
            m == pat@.len(),
            hi - lo == m,
            lo <= hi <= chars@.len(),
            e == chars@.subrange(lo as int, hi as int),
            forall|t: int| 0 <= t < q ==> #[trigger] e[t] == pat@[t],
        decreases m - q,
    {
        let a = chars[lo + q];
        let b = pat[q];
        if a != b {
            proof {
                assert(e[q as int] == chars@[lo + q as int]);
            }
            return false;
        }
        q += 1;
    }
    proof {
        assert(e =~= pat@);
    }
    true
}

/// Decides `ext_matches` for the extension `chars[lo..hi]`.
fn ext_in_skip_lists(chars: &Vec<char>, lo: usize, hi: usize, args: &Args) -> (r:
    bool)
    requires
        lo <= hi <= chars@.len(),
    ensures
        r == ext_matches(
            chars@.subrange(lo as int, hi as int),
            args.ignore_filetypes.deep_view(),
        ),
{
    let ghost e = chars@.subrange(lo as int, hi as int);
    if eq_ic_range_str(chars, lo, hi, "pyc") {
        return true;
    }
    if eq_ic_range_str(chars, lo, hi, "exe") {
        return true;
    }
    if eq_ic_range_str(chars, lo, hi, "dll") {
        return true;
    }
    if eq_ic_range_str(chars, lo, hi, "so") {
        return true;
    }
    if eq_ic_range_str(chars, lo, hi, "dylib") {
        return true;
    }
    if eq_ic_range_str(chars, lo, hi, "json") {
        return true;
    }
    if eq_ic_range_str(chars, lo, hi, "jpg") {
        return true;
    }
    if eq_ic_range_str(chars, lo, hi, "jpeg") {
        return true;
    }
    if eq_ic_range_str(chars, lo, hi, "png") {
        return true;
    }
    if eq_ic_range_str(chars, lo, hi, "gif") {
        return true;
    }
    if eq_ic_range_str(chars, lo, hi, "ico") {
        return true;
    }
    if eq_ic_range_str(chars, lo, hi, "svg") {
        return true;
    }
    if eq_ic_range_str(chars, lo, hi, "pdf") {
        return true;
    }
    if eq_ic_range_str(chars, lo, hi, "zip") {
        return true;
    }
    if eq_ic_range_str(chars, lo, hi, "tar") {
        return true;
    }
    if eq_ic_range_str(chars, lo, hi, "gz") {
        return true;
    }
    if eq_ic_range_str(chars, lo, hi, "7z") {
        return true;
    }
    if eq_ic_range_str(chars, lo, hi, "webp") {
        return true;
    }
    if eq_ic_range_str(chars, lo, hi, "mp3") {
        return true;
    }
    if eq_ic_range_str(chars, lo, hi, "mp4") {
        return true;
    }
    if eq_ic_range_str(chars, lo, hi, "avi") {
        return true;
    }
    if eq_ic_range_str(chars, lo, hi, "mov") {
        return true;
    }
    if eq_ic_range_str(chars, lo, hi, "yaml") {
        return true;
    }
    if eq_ic_range_str(chars, lo, hi, "jar") {
        return true;
    }
    if eq_ic_range_str(chars, lo, hi, "ttf") {
        return true;
    }
    if eq_ic_range_str(chars, lo, hi, "woff") {
        return true;
    }
    if eq_ic_range_str(chars, lo, hi, "woff2") {
        return true;
    }
    if eq_ic_range_str(chars, lo, hi, "ipynb") {
        return true;
    }
    if eq_ic_range_str(chars, lo, hi, "pkl") {
        return true;
    }
    if eq_ic_range_str(chars, lo, hi, "h5") {
        return true;
    }
    if eq_ic_range_str(chars, lo, hi, "model") {
        return true;
    }
    if eq_ic_range_str(chars, lo, hi, "txt") {
        return true;
    }
    if eq_ic_range_str(chars, lo, hi, "class") {
        return true;
    }
    if eq_ic_range_str(chars, lo, hi, "tree") {
        return true;
    }
    if eq_ic_range_str(chars, lo, hi, "map") {
        return true;
    }
    if eq_ic_range_str(chars, lo, hi, "debug") {
        return true;
    }
    let ghost ue = args.ignore_filetypes.deep_view();
    let mut k: usize = 0;
    while k < args.ignore_filetypes.len()
        invariant
            k <= args.ignore_filetypes@.len(),
            lo <= hi <= chars@.len(),
            e == chars@.subrange(lo as int, hi as int),
            ue == args.ignore_filetypes.deep_view(),
            ue.len() == args.ignore_filetypes@.len(),
            forall|kk: int|
                0 <= kk < k ==> !eq_ignore_ascii_case(
                    e,
                    trim_dots(#[trigger] ue[kk]),
                ),
        decreases args.ignore_filetypes@.len() - k,
    {
        let pat = to_char_vec(args.ignore_filetypes[k].as_str());
        proof {
            assert(pat@ == ue[k as int]);
        }
        let t = trim_dots_start(&pat);
        if eq_ic_range_range(chars, lo, hi, &pat, t) {
            proof {
                assert(pat@.subrange(t as int, pat@.len() as int) == trim_dots(
                    ue[k as int],
                ));
            }
            return true;
        }
        k += 1;
    }
    false
}

/// Decides `dir_matches` for the component `chars[lo..hi]`.
fn component_in_skip_lists(
    chars: &Vec<char>,
    lo: usize,
    hi: usize,
    args: &Args,
) -> (r: bool)
    requires
        lo <= hi <= chars@.len(),
    ensures
        r == dir_matches(
            chars@.subrange(lo as int, hi as int),
            args.ignore_dirs.deep_view(),
        ),
{
    let ghost e = chars@.subrange(lo as int, hi as int);
    if eq_range_str(chars, lo, hi, "node_modules") {
        return true;
    }
    if eq_range_str(chars, lo, hi, "venv") {
        return true;
    }
    if eq_range_str(chars, lo, hi, "env") {
        return true;
    }
    if eq_range_str(chars, lo, hi, ".git") {
        return true;
    }
    if eq_range_str(chars, lo, hi, ".svelte-kit") {
        return true;
    }
    if eq_range_str(chars, lo, hi, ".mvn") {
        return true;
    }
    if eq_range_str(chars, lo, hi, "__pycache__") {
        return true;
    }
    if eq_range_str(chars, lo, hi, "build") {
        return true;
    }
    if eq_range_str(chars, lo, hi, "dist") {
        return true;
    }
    if eq_range_str(chars, lo, hi, ".idea") {
        return true;
    }
    if eq_range_str(chars, lo, hi, ".husky") {
        return true;
    }
    if eq_range_str(chars, lo, hi, ".turbo") {
        return true;
    }
    if eq_range_str(chars, lo, hi, "target") {
        return true;
    }
    if eq_range_str(chars, lo, hi, ".vscode") {
        return true;
    }
    let ghost ud = args.ignore_dirs.deep_view();
    let mut k: usize = 0;
    while k < args.ignore_dirs.len()
        invariant
            k <= args.ignore_dirs@.len(),
            lo <= hi <= chars@.len(),
            e == chars@.subrange(lo as int, hi as int),
            ud == args.ignore_dirs.deep_view(),
            ud.len() == args.ignore_dirs@.len(),
            forall|kk: int| 0 <= kk < k ==> #[trigger] ud[kk] != e,
        decreases args.ignore_dirs@.len() - k,
    {
        let pat = to_char_vec(args.ignore_dirs[k].as_str());
        proof {
            assert(pat@ == ud[k as int]);
        }
        if eq_range_vec(chars, lo, hi, &pat) {
            return true;
        }
        k += 1;
    }
    false
}

/// Decides `ext_skip`: finds the file name and its extension, if any, and
/// holds the extension against the skip lists.
fn extension_skipped(chars: &Vec<char>, args: &Args) -> (r: bool)
    ensures
        r == ext_skip(chars@, args.ignore_filetypes.deep_view()),
{
    let ghost p = chars@;
    let ghost ue = args.ignore_filetypes.deep_view();
    let n = chars.len();
    let mut end = n;
    while end > 0 && chars[end - 1] == '/'
        invariant
            end <= n,
            n == p.len(),
            p == chars@,
            forall|k: int| end <= k < n ==> is_sep(#[trigger] p[k]),
        decreases end,
    {
        end -= 1;
    }
    if end == 0 {
        proof {
            if ext_skip(p, ue) {
                let (i, j, d): (int, int, int) = choose|i: int, j: int, d: int|
                    is_ext_dot(p, i, j, d) && ext_matches(
                        p.subrange(d + 1, j),
                        ue,
                    );
                assert(!is_sep(p[i]));
            }
        }
        return false;
    }
    let mut start = end - 1;
    while start > 0 && chars[start - 1] != '/'
        invariant
            start < end,
            end <= n,
            n == p.len(),
            p == chars@,
            forall|k: int| start <= k < end ==> !is_sep(#[trigger] p[k]),
        decreases start,
    {
        start -= 1;
    }
    proof {
        assert(is_file_name(p, start as int, end as int));
    }
    let mut dpos: usize = 0;
    let mut found = false;
    let mut m = start + 1;
    while m < end
        invariant
            start + 1 <= m <= end,
            start < end <= n,
            n == p.len(),
            p == chars@,
            found ==> start < dpos < m && p[dpos as int] == '.' && (forall|
                k: int,
            |
                dpos < k < m ==> #[trigger] p[k] != '.'),
            !found ==> (forall|k: int| start < k < m ==> #[trigger] p[k] != '.'),
        decreases end - m,
    {
        if chars[m] == '.' {
            dpos = m;
            found = true;
        }
        m += 1;
    }
    if found {
        proof {
            assert(is_ext_dot(p, start as int, end as int, dpos as int));
        }
        let matched = ext_in_skip_lists(chars, dpos + 1, end, args);
        proof {
            if matched {
                assert(ext_skip(p, ue));
            }
            if ext_skip(p, ue) {
                let (i, j, d): (int, int, int) = choose|i: int, j: int, d: int|
                    is_ext_dot(p, i, j, d) && ext_matches(
                        p.subrange(d + 1, j),
                        ue,
                    );
                lemma_file_name_unique(
                    p,
                    i,
                    j,
                    start as int,
                    end as int,
                );
                assert(d == dpos as int);
                assert(matched);
            }
        }
        matched
    } else {
        proof {
            if ext_skip(p, ue) {
                let (i, j, d): (int, int, int) = choose|i: int, j: int, d: int|
                    is_ext_dot(p, i, j, d) && ext_matches(
                        p.subrange(d + 1, j),
                        ue,
                    );
                lemma_file_name_unique(
                    p,
                    i,
                    j,
                    start as int,
                    end as int,
                );
                assert(p[d] == '.');
            }
        }
        false
    }
}

/// A path has at most one file name: the boundaries pin it down.
proof fn lemma_file_name_unique(p: Seq<char>, i1: int, j1: int, i2: int, j2: int)
    requires
        is_file_name(p, i1, j1),
        is_file_name(p, i2, j2),
    ensures
        i1 == i2,
        j1 == j2,
{
    if j1 < j2 {
        if j1 <= i2 {
            assert(is_sep(p[i2]));
        } else {
            assert(!is_sep(p[j1]));
        }
    }
    if j2 < j1 {
        if j2 <= i1 {
            assert(is_sep(p[i1]));
        } else {
            assert(!is_sep(p[j2]));
        }
    }
    if i1 < i2 {
        assert(!is_sep(p[i2 - 1]));
    }
    if i2 < i1 {
        assert(!is_sep(p[i1 - 1]));
    }
}

/// Decides `dir_skip`: walks the components of the path and holds each
/// against the skipped directory names.
fn component_skipped(chars: &Vec<char>, args: &Args) -> (r: bool)
    ensures
        r == dir_skip(chars@, args.ignore_dirs.deep_view()),
{
    let ghost p = chars@;
    let ghost ud = args.ignore_dirs.deep_view();
    let n = chars.len();
    let mut pos: usize = 0;
    while pos < n
        invariant
            pos <= n,
            n == p.len(),
            p == chars@,
            ud == args.ignore_dirs.deep_view(),
            pos == n || pos == 0 || is_sep(p[pos - 1]) || is_sep(
                p[pos as int],
            ),
            forall|i: int, j: int|
                #[trigger] is_component(p, i, j) && j <= pos ==> !dir_matches(
                    p.subrange(i, j),
                    ud,
                ),
        decreases n - pos,
    {
        if chars[pos] == '/' {
            proof {
                assert forall|i: int, j: int|
                    #[trigger] is_component(p, i, j) && j <= pos + 1 implies
                    !dir_matches(p.subrange(i, j), ud) by {
                    if j == pos + 1 {
                        assert(!is_sep(p[j - 1]));
                    }
                }
            }
            pos += 1;
        } else {
            let cs = pos;
            let mut ce = pos;
            while ce < n && chars[ce] != '/'
                invariant
                    cs <= ce <= n,
                    n == p.len(),
                    p == chars@,
                    forall|k: int| cs <= k < ce ==> !is_sep(#[trigger] p[k]),
                decreases n - ce,
            {
                ce += 1;
            }
            proof {
                assert(is_component(p, cs as int, ce as int));
            }
            if component_in_skip_lists(chars, cs, ce, args) {
                return true;
            }
            proof {
                assert forall|i: int, j: int|
                    #[trigger] is_component(p, i, j) && j <= ce implies
                    !dir_matches(p.subrange(i, j), ud) by {
                    if j > cs {
                        if j < ce {
                            assert(!is_sep(p[j]));
                        }
                        assert(j == ce);
                        if i < cs {
                            assert(!is_sep(p[cs - 1]));
                        }
                        if cs < i {
                            assert(!is_sep(p[i - 1]));
                        }
                        assert(i == cs);
                    }
                }
            }
            pos = ce;
        }
    }
    proof {
        if dir_skip(p, ud) {
            let (i, j): (int, int) = choose|i: int, j: int|
                is_component(p, i, j) && dir_matches(p.subrange(i, j), ud);
            assert(j <= n);
        }
    }
    false
}

/// The skip filter: pure inspection of the path text against the built-in
/// skip lists and the user's additions in `args`.
pub fn should_skip_file(filepath: &str, args: &Args) -> (r: bool)
    ensures
        r == spec_should_skip(
            filepath@,
            args.ignore_filetypes.deep_view(),
            args.ignore_dirs.deep_view(),
        ),
{
    let chars = to_char_vec(filepath);
    if extension_skipped(&chars, args) {
        return true;
    }
    component_skipped(&chars, args)
}

/// Index of the first character of `pat` that is not a leading dot.
fn trim_dots_start(pat: &Vec<char>) -> (t: usize)
    ensures
        t <= pat@.len(),
        pat@.subrange(t as int, pat@.len() as int) == trim_dots(pat@),
{
    let n = pat.len();
    let mut t: usize = 0;
    proof {
        assert(pat@.subrange(0, n as int) =~= pat@);
    }
    while t < n && pat[t] == '.'
        invariant
            t <= n,
            n == pat@.len(),
            trim_dots(pat@) == trim_dots(
                pat@.subrange(t as int, n as int),
            ),
        decreases n - t,
    {
        proof {
            let rest = pat@.subrange(t as int, n as int);
            assert(rest[0] == pat@[t as int]);
            assert(rest.drop_first() =~= pat@.subrange(t as int + 1, n as int));
        }
        t += 1;
    }
    proof {
        let rest = pat@.subrange(t as int, n as int);
        if t < n {
            assert(rest[0] == pat@[t as int]);
        }
        assert(trim_dots(rest) == rest);
    }
    t
}


/// A path with any component that matches a skipped directory name is
/// skipped, however deep that component stands and whatever the file's own
/// extension: nothing below a skipped directory is ever scanned.
pub proof fn lemma_skipped_dir_any_depth(
    p: Seq<char>,
    i: int,
    j: int,
    user_exts: Seq<Seq<char>>,
    user_dirs: Seq<Seq<char>>,
)
    requires
        is_component(p, i, j),
        dir_matches(p.subrange(i, j), user_dirs),
    ensures
        spec_should_skip(p, user_exts, user_dirs),
{
    assert(is_component(p, i, j) && dir_matches(p.subrange(i, j), user_dirs));
}

/// A path whose extension matches the skip lists is skipped, whether the
/// extension stands in the built-in list or among the user's patterns: such
/// a file is never opened, however much content it holds.
pub proof fn lemma_skipped_extension(
    p: Seq<char>,
    i: int,
    j: int,
    d: int,
    user_exts: Seq<Seq<char>>,
    user_dirs: Seq<Seq<char>>,
)
    requires
        is_ext_dot(p, i, j, d),
        ext_matches(p.subrange(d + 1, j), user_exts),
    ensures
        spec_should_skip(p, user_exts, user_dirs),
{
    assert(is_ext_dot(p, i, j, d) && ext_matches(
        p.subrange(d + 1, j),
        user_exts,
    ));
}

} // verus!
