//! Resolution of a single directive line into a candidate unit key.
//!
//! Only lines that begin with the `#` directive prefix for header references
//! are considered. The referenced path is taken from between the first
//! angle-bracket pair if one opens, else the first quote pair; an opening
//! delimiter without its closing partner is a fatal parse error. The path's
//! leading segment (up to the first `/`) is the scope root: when it matches
//! the library under analysis the reference is in scope, otherwise it is
//! only recorded as out of scope and never becomes an edge.

use vstd::prelude::*;

use crate::types::UnitKey;
use crate::util::chop_all;
use crate::util::sfx_h;
use crate::util::sfx_inl_h;
use crate::util::snake_of;
use crate::util::str_chars;
use crate::util::chars_string;

verus! {

/// Which library a resolved reference points into: the library under
/// analysis (named for the default analysis target), or an unrecognized
/// one.
#[derive(PartialEq, Eq, Structural, Clone, Copy, Debug)]
pub enum HeaderLib {
    UNKNOWN,
    FOLLY,
}

/// A directive line whose opening delimiter has no closing partner.
#[derive(PartialEq, Eq, Structural, Clone, Copy, Debug)]
pub struct ParseError {
}

/// The index of the first occurrence of `c` in `l` at or after `i`, or -1
/// when there is none.
pub open spec fn first_at(l: Seq<char>, c: char, i: int) -> int
    decreases l.len() - i,
{
    if !(0 <= i < l.len()) {
        -1
    } else if l[i] == c {
        i
    } else {
        first_at(l, c, i + 1)
    }
}

/// The index of the last occurrence of `c` in `l`, or -1 when there is
/// none.
pub open spec fn last_at(l: Seq<char>, c: char) -> int
    decreases l.len(),
{
    if l.len() == 0 {
        -1
    } else if l[l.len() - 1] == c {
        l.len() - 1
    } else {
        last_at(l.drop_last(), c)
    }
}

/// The directive prefix that header-reference lines start with.
pub open spec fn directive_prefix() -> Seq<char> {
    seq!['#', 'i', 'n', 'c', 'l', 'u', 'd', 'e']
}

pub open spec fn is_directive_line(l: Seq<char>) -> bool {
    l.len() >= 8 && l.take(8) == directive_prefix()
}

/// What a directive line resolves to: nothing worth acting on, a fatal
/// delimiter error, or a reference with its normalized name, its directory
/// and whether its scope root is the library under analysis.
#[verifier::ext_equal]
pub enum Resolution {
    Skip,
    Malformed,
    Reference { name: Seq<char>, dir: Seq<char>, in_scope: bool },
}

/// Resolves the path between the delimiters: template and header suffixes
/// are stripped (template variant first), the scope root is the segment up
/// to the first `/`, the unit name is the normalized last segment and the
/// directory is everything before it.
pub open spec fn resolve_path(p: Seq<char>, scope: Seq<char>) -> Resolution {
    let t = chop_all(chop_all(p, sfx_inl_h()), sfx_h());
    let f = first_at(t, '/', 0);
    let root = if f < 0 {
        t
    } else {
        t.take(f)
    };
    let r = last_at(t, '/');
    let name = if r < 0 {
        snake_of(t)
    } else {
        snake_of(t.subrange(r + 1, t.len() as int))
    };
    let dir = if r < 0 {
        Seq::<char>::empty()
    } else {
        t.take(r)
    };
    Resolution::Reference { name, dir, in_scope: root == scope }
}

/// Full resolution of one line: non-directive lines and directive lines
/// with no delimiter at all are skipped; an opening delimiter whose closing
/// partner is missing (or stands before it) is malformed; otherwise the
/// enclosed path is resolved.
pub open spec fn resolve_spec(l: Seq<char>, scope: Seq<char>) -> Resolution {
    if !is_directive_line(l) {
        Resolution::Skip
    } else {
        let a = first_at(l, '<', 0);
        if a >= 0 {
            let b = first_at(l, '>', 0);
            if b > a {
                resolve_path(l.subrange(a + 1, b), scope)
            } else {
                Resolution::Malformed
            }
        } else {
            let q = first_at(l, '"', 0);
            if q < 0 {
                Resolution::Skip
            } else {
                let b = first_at(l, '"', q + 1);
                if b > q {
                    resolve_path(l.subrange(q + 1, b), scope)
                } else {
                    Resolution::Malformed
                }
            }
        }
    }
}

pub(crate) fn find_char(v: &Vec<char>, c: char, from: usize) -> (r: Option<usize>)
    requires
        from <= v@.len(),
    ensures
        match r {
            Some(i) => i == first_at(v@, c, from as int) && from <= i < v@.len() && v@[i as int]
                == c,
            None => first_at(v@, c, from as int) == -1,
        },
{
    let mut j = from;
    while j < v.len()
        invariant
            from <= j <= v@.len(),
            first_at(v@, c, from as int) == first_at(v@, c, j as int),
        decreases v@.len() - j,
    {
        if v[j] == c {
            return Some(j);
        }
        j = j + 1;
    }
    None
}

fn rfind_char(v: &Vec<char>, c: char) -> (r: Option<usize>)
    ensures
        match r {
            Some(i) => i == last_at(v@, c) && i < v@.len() && v@[i as int] == c,
            None => last_at(v@, c) == -1,
        },
{
    let mut j = v.len();
    proof {
        assert(v@.take(v@.len() as int) =~= v@);
    }
    while j > 0
        invariant
            j <= v@.len(),
            last_at(v@, c) == last_at(v@.take(j as int), c),
        decreases j,
    {
        j = j - 1;
        if v[j] == c {
            proof {
                assert(v@.take(j + 1).drop_last() =~= v@.take(j as int));
                assert(last_at(v@.take(j + 1), c) == j);
            }
            return Some(j);
        }
        proof {
            assert(v@.take(j + 1).drop_last() =~= v@.take(j as int));
        }
    }
    proof {
        assert(v@.take(0) =~= Seq::<char>::empty());
    }
    None
}

pub(crate) fn subvec(v: &Vec<char>, from: usize, to: usize) -> (r: Vec<char>)
    requires
        from <= to <= v@.len(),
    ensures
        r@ == v@.subrange(from as int, to as int),
{
    let mut r: Vec<char> = Vec::new();
    let mut j = from;
    while j < to
        invariant
            from <= j <= to <= v@.len(),
            r@ == v@.subrange(from as int, j as int),
        decreases to - j,
    {
        r.push(v[j]);
        proof {
            assert(r@ =~= v@.subrange(from as int, j + 1));
        }
        j = j + 1;
    }
    r
}

pub(crate) fn eq_chars(a: &Vec<char>, b: &Vec<char>) -> (r: bool)
    ensures
        r == (a@ == b@),
{
    if a.len() != b.len() {
        return false;
    }
    let mut j: usize = 0;
    while j < a.len()
        invariant
            j <= a@.len(),
            a@.len() == b@.len(),
            forall|k: int| 0 <= k < j ==> a@[k] == b@[k],
        decreases a@.len() - j,
    {
        if a[j] != b[j] {
            return false;
        }
        j = j + 1;
    }
    proof {
        assert(a@ =~= b@);
    }
    true
}

fn chop_sfx(t: &mut Vec<char>)
    ensures
        final(t)@ == chop_all(chop_all(old(t)@, sfx_inl_h()), sfx_h()),
{
    let inl: Vec<char> = vec!['-', 'i', 'n', 'l', '.', 'h'];
    let h: Vec<char> = vec!['.', 'h'];
    proof {
        assert(inl@ =~= sfx_inl_h());
        assert(h@ =~= sfx_h());
    }
    crate::util::chop_suffix_all(t, &inl);
    crate::util::chop_suffix_all(t, &h);
}

fn resolve_path_chars(p: &Vec<char>, scope: &Vec<char>) -> (r: (UnitKey, HeaderLib))
    ensures
        ({
            let res = resolve_path(p@, scope@);
            res matches Resolution::Reference { name, dir, in_scope } && r.0@.name == name
                && r.0@.root_dir == dir && r.1 == (if in_scope {
                HeaderLib::FOLLY
            } else {
                HeaderLib::UNKNOWN
            })
        }),
{
    let mut t = subvec(p, 0, p.len());
    proof {
        assert(p@.subrange(0, p@.len() as int) =~= p@);
    }
    chop_sfx(&mut t);
    let root: Vec<char> = match find_char(&t, '/', 0) {
        Option::None => subvec(&t, 0, t.len()),
        Option::Some(f) => subvec(&t, 0, f),
    };
    proof {
        let fs = first_at(t@, '/', 0);
        if fs < 0 {
            assert(root@ =~= t@);
        } else {
            assert(root@ =~= t@.take(fs));
        }
    }
    let in_scope = eq_chars(&root, scope);
    let (name_chars, dir_chars): (Vec<char>, Vec<char>) = match rfind_char(&t, '/') {
        Option::None => (subvec(&t, 0, t.len()), Vec::new()),
        Option::Some(i) => (subvec(&t, i + 1, t.len()), subvec(&t, 0, i)),
    };
    proof {
        let rs = last_at(t@, '/');
        if rs >= 0 {
            assert(dir_chars@ =~= t@.take(rs));
        } else {
            assert(dir_chars@ =~= Seq::<char>::empty());
            assert(name_chars@ =~= t@);
        }
    }
    let snaked = crate::util::snake_chars(&name_chars);
    let key = UnitKey { name: chars_string(&snaked), root_dir: chars_string(&dir_chars) };
    let lib = if in_scope {
        HeaderLib::FOLLY
    } else {
        HeaderLib::UNKNOWN
    };
    (key, lib)
}

/// Parses one line as a header reference. `Ok(None)` when the line is not a
/// directive or carries no delimited path; `Err` when an opening delimiter
/// has no closing partner; otherwise the referenced unit key together with
/// the scope classification of its root segment against `scope`, the name
/// of the library under analysis.
pub fn strip_directive(line: &str, scope: &str) -> (r: Result<
    Option<(UnitKey, HeaderLib)>,
    ParseError,
>)
    ensures
        ({
            let res = resolve_spec(line@, scope@);
            match res {
                Resolution::Skip => r matches Ok(o) && o is None,
                Resolution::Malformed => r is Err,
                Resolution::Reference { name, dir, in_scope } => r matches Ok(o) && o matches Some(
                    (k, lib),
                ) && k@.name == name && k@.root_dir == dir && lib == (if in_scope {
                    HeaderLib::FOLLY
                } else {
                    HeaderLib::UNKNOWN
                }),
            }
        }),
{
    let l = str_chars(line);
    let scope_chars = str_chars(scope);
    let pfx: Vec<char> = vec!['#', 'i', 'n', 'c', 'l', 'u', 'd', 'e'];
    proof {
        assert(pfx@ =~= directive_prefix());
    }
    if l.len() < 8 {
        return Ok(None);
    }
    let head = subvec(&l, 0, 8);
    proof {
        assert(head@ =~= l@.take(8));
    }
    if !eq_chars(&head, &pfx) {
        return Ok(None);
    }
    match find_char(&l, '<', 0) {
        Option::Some(a) => {
            match find_char(&l, '>', 0) {
                Option::Some(b) if b > a => {
                    let p = subvec(&l, a + 1, b);
                    Ok(Some(resolve_path_chars(&p, &scope_chars)))
                },
                _ => Err(ParseError {  }),
            }
        },
        Option::None => {
            match find_char(&l, '"', 0) {
                Option::None => Ok(None),
                Option::Some(q) => {
                    match find_char(&l, '"', q + 1) {
                        Option::Some(b) => {
                            let p = subvec(&l, q + 1, b);
                            Ok(Some(resolve_path_chars(&p, &scope_chars)))
                        },
                        Option::None => Err(ParseError {  }),
                    }
                },
            }
        },
    }
}

} // verus!
