//! The shared libraries a binary loads, read from what `lddtree` or `ldd` print.
//!
//! `lddtree` prints the binary itself on its first line and then one `name => path` line per
//! library; `ldd` prints `name => path (address)` lines and a bare `path (address)` line for
//! the dynamic loader. Either way the path is the first word after the arrow, or the first word
//! of a line without one, and only absolute paths are libraries.
use vstd::prelude::*;

use crate::text::push_char;

verus! {

/// Where the first `\n` at position `i` or after it stands.
pub open spec fn newline_from(s: Seq<char>, i: int) -> Option<int>
    decreases s.len() - i,
{
    if i < 0 || i >= s.len() {
        None
    } else if s[i] == '\n' {
        Some(i)
    } else {
        newline_from(s, i + 1)
    }
}

/// The first `\n` from `i` on stands at `i` or after it, inside the text.
pub proof fn lemma_newline_from_bounds(s: Seq<char>, i: int)
    ensures
        newline_from(s, i) matches Some(j) ==> i <= j < s.len(),
    decreases s.len() - i,
{
    if 0 <= i < s.len() && s[i] != '\n' {
        lemma_newline_from_bounds(s, i + 1);
    }
}

/// A line without the `\r` of a `\r\n` that ended it.
pub open spec fn without_cr(line: Seq<char>) -> Seq<char> {
    if line.len() > 0 && line.last() == '\r' {
        line.drop_last()
    } else {
        line
    }
}

/// The lines of a text as `str::lines` splits it: at each `\n`, or `\r\n`, neither kept; a
/// line ending at the very end ends the last line rather than starting an empty one, and a
/// `\r` with no `\n` after it stays in its line.
pub open spec fn text_lines(s: Seq<char>) -> Seq<Seq<char>>
    decreases s.len(),
{
    if s.len() == 0 {
        Seq::empty()
    } else {
        match newline_from(s, 0) {
            Some(i) => {
                proof {
                    lemma_newline_from_bounds(s, 0);
                }
                seq![without_cr(s.take(i))] + text_lines(s.skip(i + 1))
            },
            None => seq![s],
        }
    }
}

/// The characters with Unicode's `White_Space` property, which `str::trim` takes off.
pub open spec fn is_white_space(c: char) -> bool {
    let n = c as u32;
    ||| 0x9 <= n <= 0xd
    ||| n == 0x20
    ||| n == 0x85
    ||| n == 0xa0
    ||| n == 0x1680
    ||| 0x2000 <= n <= 0x200a
    ||| n == 0x2028
    ||| n == 0x2029
    ||| n == 0x202f
    ||| n == 0x205f
    ||| n == 0x3000
}

/// A text without the white space at its start.
pub open spec fn trimmed_start(s: Seq<char>) -> Seq<char>
    decreases s.len(),
{
    if s.len() > 0 && is_white_space(s[0]) {
        trimmed_start(s.drop_first())
    } else {
        s
    }
}

/// A text without the white space at its end.
pub open spec fn trimmed_end(s: Seq<char>) -> Seq<char>
    decreases s.len(),
{
    if s.len() > 0 && is_white_space(s.last()) {
        trimmed_end(s.drop_last())
    } else {
        s
    }
}

/// A text as `str::trim` leaves it: without the white space at either end.
pub open spec fn trimmed(s: Seq<char>) -> Seq<char> {
    trimmed_end(trimmed_start(s))
}

/// Where the part of `path` that ends at `i` begins: just after the last `/` before `i`, or at
/// the start.
pub open spec fn segment_start(path: Seq<char>, i: int) -> int
    decreases i,
{
    if i <= 0 {
        0
    } else if path[i - 1] == '/' {
        i
    } else {
        segment_start(path, i - 1)
    }
}

/// The part of `path` that ends at `i` begins at or before `i`, at or after the start.
pub proof fn lemma_segment_start_bounds(path: Seq<char>, i: int)
    ensures
        i >= 0 ==> 0 <= segment_start(path, i) <= i,
    decreases i,
{
    if i > 0 && path[i - 1] != '/' {
        lemma_segment_start_bounds(path, i - 1);
    }
}

/// The last component of a path as `Path::components` splits it: the last part between
/// slashes that is neither empty nor `.`, which it normalizes away; none when there is no such
/// part.
pub open spec fn last_name(path: Seq<char>) -> Option<Seq<char>>
    decreases path.len(),
{
    if path.len() == 0 {
        None
    } else {
        let start = segment_start(path, path.len() as int);
        let segment = path.subrange(start, path.len() as int);
        if segment.len() == 0 || segment == seq!['.'] {
            if start <= 0 {
                None
            } else {
                proof {
                    lemma_segment_start_bounds(path, path.len() as int);
                }
                last_name(path.subrange(0, start - 1))
            }
        } else {
            Some(segment)
        }
    }
}

/// A name that is one whole path component: not empty, no `/`, and neither `.` nor `..`.
pub open spec fn plain_name(name: Seq<char>) -> bool {
    &&& name.len() > 0
    &&& forall|i: int| 0 <= i < name.len() ==> name[i] != '/'
    &&& name != seq!['.']
    &&& name != seq!['.', '.']
}

/// The file name of the dynamic loader that every binary `ldd` can list loads.
pub open spec fn loader_name() -> Seq<char> {
    "ld-linux-x86-64.so.2"@
}

/// Whether a path's last component is the dynamic loader.
pub open spec fn names_the_loader(path: Seq<char>) -> bool {
    last_name(path) == Some(loader_name())
}

/// `str::lines`: the lines of the text, each as its own string.
#[verifier::external_body]
fn lines_of(s: &str) -> (r: Vec<String>)
    ensures
        r@.map_values(|l: String| l@) == text_lines(s@),
{
    s.lines().map(str::to_owned).collect()
}

/// `str::trim`: the text without the white space at either end.
#[verifier::external_body]
fn trim(s: &str) -> (r: String)
    ensures
        r@ == trimmed(s@),
{
    s.trim().to_owned()
}

/// `str::chars`: the characters of the text, in order.
#[verifier::external_body]
pub(crate) fn chars_of(s: &str) -> (r: Vec<char>)
    ensures
        r@ == s@,
{
    s.chars().collect()
}

/// `Path::ends_with` with a one-component `name`: whether the path's last component, as
/// `Path::components` splits and normalizes it, is `name`.
#[verifier::external_body]
fn ends_with_name(path: &str, name: &str) -> (b: bool)
    requires
        plain_name(name@),
    ensures
        b == (last_name(path@) == Some(name@)),
{
    std::path::Path::new(path).ends_with(name)
}

/// Where the first `=>` from position `i` on starts.
pub open spec fn arrow_from(s: Seq<char>, i: int) -> Option<int>
    decreases s.len() - i,
{
    if i < 0 || i + 1 >= s.len() {
        None
    } else if s[i] == '=' && s[i + 1] == '>' {
        Some(i)
    } else {
        arrow_from(s, i + 1)
    }
}

/// The characters before the first space, or all of them.
pub open spec fn first_word(s: Seq<char>) -> Seq<char>
    decreases s.len(),
{
    if s.len() == 0 || s[0] == ' ' {
        seq![]
    } else {
        seq![s[0]] + first_word(s.drop_first())
    }
}

/// The path a line names: the first word after the arrow, or of the line when it has none.
pub open spec fn line_path(line: Seq<char>) -> Seq<char> {
    let t = trimmed(line);
    match arrow_from(t, 0) {
        Some(i) => first_word(trimmed(t.subrange(i + 2, t.len() as int))),
        None => first_word(t),
    }
}

/// The absolute paths the lines name, in order.
pub open spec fn listed(lines: Seq<Seq<char>>) -> Seq<Seq<char>>
    decreases lines.len(),
{
    if lines.len() == 0 {
        seq![]
    } else {
        let path = line_path(lines[0]);
        (if path.len() > 0 && path[0] == '/' {
            seq![path]
        } else {
            seq![]
        }) + listed(lines.drop_first())
    }
}

/// The lines that list libraries: all of `ldd`'s, and all but the first of `lddtree`'s.
pub open spec fn library_lines(output: Seq<char>, from_lddtree: bool) -> Seq<Seq<char>> {
    let lines = text_lines(output);
    if from_lddtree && lines.len() > 0 {
        lines.drop_first()
    } else {
        lines
    }
}

/// The libraries a listing names.
pub open spec fn library_listing(output: Seq<char>, from_lddtree: bool) -> Seq<Seq<char>> {
    listed(library_lines(output, from_lddtree))
}

/// The characters of `cs` from `from` on, up to the first space.
fn word_from(cs: &Vec<char>, from: usize) -> (w: String)
    requires
        from <= cs@.len(),
    ensures
        w@ == first_word(cs@.subrange(from as int, cs@.len() as int)),
{
    let mut w = String::new();
    let mut k: usize = from;
    while k < cs.len() && cs[k] != ' '
        invariant
            from <= k <= cs@.len(),
            w@ + first_word(cs@.subrange(k as int, cs@.len() as int)) == first_word(cs@.subrange(from as int, cs@.len() as int)),
        decreases cs@.len() - k,
    {
        let ghost rest = cs@.subrange(k as int, cs@.len() as int);
        let ghost before = w@;
        push_char(&mut w, cs[k]);
        proof {
            assert(rest.drop_first() =~= cs@.subrange(k + 1, cs@.len() as int));
            assert(rest[0] == cs@[k as int]);
            assert(w@ + first_word(cs@.subrange(k + 1, cs@.len() as int)) =~= before + first_word(rest));
        }
        k = k + 1;
    }
    assert(first_word(cs@.subrange(k as int, cs@.len() as int)) =~= Seq::<char>::empty());
    assert(w@ =~= first_word(cs@.subrange(from as int, cs@.len() as int)));
    w
}

/// The text of `cs` from `from` on.
fn text_from(cs: &Vec<char>, from: usize) -> (t: String)
    requires
        from <= cs@.len(),
    ensures
        t@ == cs@.subrange(from as int, cs@.len() as int),
{
    let mut t = String::new();
    let mut k: usize = from;
    while k < cs.len()
        invariant
            from <= k <= cs@.len(),
            t@ == cs@.subrange(from as int, k as int),
        decreases cs@.len() - k,
    {
        push_char(&mut t, cs[k]);
        assert(t@ =~= cs@.subrange(from as int, k + 1));
        k = k + 1;
    }
    t
}

/// Where the first `=>` in the characters starts, if they hold one.
fn find_arrow(cs: &Vec<char>) -> (r: Option<usize>)
    ensures
        match r {
            Some(i) => arrow_from(cs@, 0) == Some(i as int) && i + 1 < cs@.len(),
            None => arrow_from(cs@, 0) is None,
        },
{
    let mut i: usize = 0;
    while i < cs.len() && cs.len() - i > 1
        invariant
            i <= cs@.len(),
            arrow_from(cs@, 0) == arrow_from(cs@, i as int),
        decreases cs@.len() - i,
    {
        if cs[i] == '=' && cs[i + 1] == '>' {
            return Some(i);
        }
        i = i + 1;
    }
    None
}

/// The path a line names.
fn path_of(line: &str) -> (p: String)
    ensures
        p@ == line_path(line@),
{
    let t = trim(line);
    let cs = chars_of(t.as_str());
    match find_arrow(&cs) {
        Some(i) => {
            let n = cs.len();
            assert(i + 1 < n);
            let rest = trim(text_from(&cs, i + 2).as_str());
            let rest_chars = chars_of(rest.as_str());
            assert(rest_chars@.subrange(0, rest_chars@.len() as int) =~= rest_chars@);
            word_from(&rest_chars, 0)
        },
        None => {
            assert(cs@.subrange(0, cs@.len() as int) =~= cs@);
            word_from(&cs, 0)
        },
    }
}

/// The shared libraries a binary loads, from what `lddtree` (or else `ldd`) printed for it;
/// none when `ldd` listed no dynamic loader, which every binary it can list has.
pub fn library_paths(output: &str, from_lddtree: bool) -> (r: Option<Vec<String>>)
    ensures
        r is None <==> (!from_lddtree && forall|k: int| 0 <= k < library_listing(output@, from_lddtree).len()
            ==> !names_the_loader(#[trigger] library_listing(output@, from_lddtree)[k])),
        r matches Some(paths) ==> paths@.map_values(|p: String| p@) == library_listing(output@, from_lddtree),
{
    let lines = lines_of(output);
    let ghost all = lines@.map_values(|l: String| l@);
    let start: usize = if from_lddtree && lines.len() > 0 {
        1
    } else {
        0
    };
    let ghost wanted = library_lines(output@, from_lddtree);
    assert(wanted =~= all.subrange(start as int, all.len() as int));
    let mut paths: Vec<String> = Vec::new();
    let mut k: usize = start;
    while k < lines.len()
        invariant
            all == lines@.map_values(|l: String| l@),
            start <= k <= all.len(),
            wanted == all.subrange(start as int, all.len() as int),
            paths@.map_values(|p: String| p@) + listed(all.subrange(k as int, all.len() as int)) == listed(wanted),
        decreases all.len() - k,
    {
        let ghost rest = all.subrange(k as int, all.len() as int);
        let ghost before = paths@.map_values(|p: String| p@);
        let path = path_of(lines[k].as_str());
        let chars = chars_of(path.as_str());
        let absolute = chars.len() > 0 && chars[0] == '/';
        if absolute {
            paths.push(path);
        }
        proof {
            assert(rest.drop_first() =~= all.subrange(k + 1, all.len() as int));
            assert(rest[0] == lines@[k as int]@);
            let next = paths@.map_values(|p: String| p@);
            assert(next =~= before + if absolute { seq![line_path(rest[0])] } else { seq![] });
            assert(next + listed(all.subrange(k + 1, all.len() as int)) =~= before + listed(rest));
        }
        k = k + 1;
    }
    assert(all.subrange(all.len() as int, all.len() as int).len() == 0);
    let ghost found = paths@.map_values(|p: String| p@);
    assert(found =~= library_listing(output@, from_lddtree));
    if from_lddtree {
        return Some(paths);
    }
    let mut j: usize = 0;
    while j < paths.len()
        invariant
            j <= paths@.len(),
            found == paths@.map_values(|p: String| p@),
            found == library_listing(output@, from_lddtree),
            !from_lddtree,
            forall|i: int| 0 <= i < j ==> !names_the_loader(#[trigger] found[i]),
        decreases paths@.len() - j,
    {
        let loader = "ld-linux-x86-64.so.2";
        proof {
            reveal_strlit("ld-linux-x86-64.so.2");
            assert(loader@ == loader_name());
            assert(loader@.len() == 20);
            assert(loader@ != seq!['.']);
            assert(loader@ != seq!['.', '.']);
        }
        if ends_with_name(paths[j].as_str(), loader) {
            assert(names_the_loader(found[j as int]));
            return Some(paths);
        }
        j = j + 1;
    }
    None
}

} // verus!
