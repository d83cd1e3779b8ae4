//! Paths as strings, with `/` between their components: joining, and the
//! stem of a file name.
//!
//! The rules are this library's own, for the names that it derives from
//! the path of an input file. A path is taken as it is written: nothing is
//! made of `.` or of repeated `/`, and a path that ends in `/` names no
//! file, so that its stem is empty.

use vstd::prelude::*;
use crate::text::chars_of;

verus! {

/// The index of the last `c` in `s`, or -1 if there is none.
pub open spec fn last_index_of(s: Seq<char>, c: char) -> int
    decreases s.len(),
{
    if s.len() == 0 {
        -1
    } else if s.last() == c {
        s.len() - 1
    } else {
        last_index_of(s.drop_last(), c)
    }
}

/// The last component of a path: what follows its last `/`.
pub open spec fn file_name(path: Seq<char>) -> Seq<char> {
    path.subrange(last_index_of(path, '/') + 1, path.len() as int)
}

/// The stem of a file name: the name up to its last `.`, or all of it if
/// it holds no `.` but at its front. The name `..` has no stem.
pub open spec fn name_stem(name: Seq<char>) -> Seq<char> {
    let dot = last_index_of(name, '.');
    if name == seq!['.', '.'] {
        Seq::empty()
    } else if dot <= 0 {
        name
    } else {
        name.subrange(0, dot)
    }
}

/// The stem of the file that a path names.
pub open spec fn file_stem(path: Seq<char>) -> Seq<char> {
    name_stem(file_name(path))
}

/// The path of `name` in the directory `dir`. An empty directory leaves the
/// name as it is, and so does a name that starts at the root.
pub open spec fn joined(dir: Seq<char>, name: Seq<char>) -> Seq<char> {
    if dir.len() == 0 || (name.len() > 0 && name[0] == '/') {
        name
    } else if dir.last() == '/' {
        dir + name
    } else {
        dir + seq!['/'] + name
    }
}

/// The last index of `c` is the index `p` behind which no `c` stands.
pub proof fn lemma_last_index_of(s: Seq<char>, c: char, p: int)
    requires
        -1 <= p < s.len(),
        p >= 0 ==> s[p] == c,
        forall|i: int| p < i < s.len() ==> #[trigger] s[i] != c,
    ensures
        last_index_of(s, c) == p,
    decreases s.len(),
{
    if s.len() > 0 && p < s.len() - 1 {
        let rest = s.drop_last();
        assert(s[s.len() - 1] != c);
        assert forall|i: int| p < i < rest.len() implies #[trigger] rest[i] != c by {
            assert(rest[i] == s[i]);
        }
        if p >= 0 {
            assert(rest[p] == s[p]);
        }
        lemma_last_index_of(rest, c, p);
    }
}

/// The path of `name` in the directory `dir`.
pub fn join(dir: &str, name: &str) -> (r: String)
    ensures
        r@ == joined(dir@, name@),
{
    let d = chars_of(dir);
    let n = chars_of(name);
    if d.len() == 0 || (n.len() > 0 && n[0] == '/') {
        return String::from_str(name);
    }
    let mut r = String::from_str(dir);
    if d[d.len() - 1] != '/' {
        proof {
            reveal_strlit("/");
            assert("/"@ =~= seq!['/']);
        }
        r.append("/");
    }
    r.append(name);
    r
}

fn last_index(chars: &Vec<char>, from: usize, to: usize, c: char) -> (r: Option<usize>)
    requires
        from <= to <= chars.len(),
    ensures
        match r {
            Some(p) => from <= p < to && last_index_of(chars@.subrange(from as int, to as int), c) == p
                - from,
            None => last_index_of(chars@.subrange(from as int, to as int), c) == -1,
        },
{
    let ghost part = chars@.subrange(from as int, to as int);
    let mut p: usize = to;
    while p > from
        invariant
            from <= p <= to <= chars.len(),
            part == chars@.subrange(from as int, to as int),
            forall|i: int| p - from <= i < part.len() ==> #[trigger] part[i] != c,
        decreases p,
    {
        if chars[p - 1] == c {
            proof {
                lemma_last_index_of(part, c, p - 1 - from);
            }
            return Some(p - 1);
        }
        p -= 1;
    }
    proof {
        lemma_last_index_of(part, c, -1);
    }
    None
}

/// The stem of the file that a path names: its last component, up to the
/// last `.` that does not stand at the front of it.
pub fn stem_of(path: &str) -> (r: String)
    ensures
        r@ == file_stem(path@),
{
    let chars = chars_of(path);
    let n = chars.len();
    let start = match last_index(&chars, 0, n, '/') {
        Some(p) => p + 1,
        None => 0,
    };
    assert(chars@.subrange(0, n as int) == chars@);
    let ghost name = chars@.subrange(start as int, n as int);
    assert(name == file_name(path@));
    if n - start == 2 && chars[start] == '.' && chars[start + 1] == '.' {
        assert(name =~= seq!['.', '.']);
        return String::new();
    }
    assert(name != seq!['.', '.']) by {
        if name.len() == 2 {
            assert(seq!['.', '.'][0] == '.' && seq!['.', '.'][1] == '.');
        }
    }
    let end = match last_index(&chars, start, n, '.') {
        Some(p) => if p > start {
            p
        } else {
            n
        },
        None => n,
    };
    assert(name_stem(name) =~= chars@.subrange(start as int, end as int));
    String::from_str(path.substring_char(start, end))
}

} // verus!
