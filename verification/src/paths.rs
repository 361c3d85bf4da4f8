use vstd::prelude::*;
use vstd::string::*;

verus! {

/// True of the two path separators that change notifications may carry.
pub open spec fn is_sep(c: char) -> bool {
    c == '/' || c == '\\'
}

/// A backslash becomes a forward slash; every other character stays.
pub open spec fn norm_sep(c: char) -> char {
    if c == '\\' {
        '/'
    } else {
        c
    }
}

/// Separator normalization of a whole path.
pub open spec fn norm_all(s: Seq<char>) -> Seq<char> {
    s.map_values(|c: char| norm_sep(c))
}

/// The logical path of a change notification: `abs` relative to the
/// watched root `base`, with one separator after the root stripped and
/// every backslash replaced by a forward slash. `None` when `abs` does
/// not lie under `base`: a sibling whose name merely extends the base
/// (base `res`, notification `reserve/x`) is refused, so the root must
/// be followed by a separator or end the path, unless the base is empty
/// or itself ends in a separator.
pub open spec fn spec_normalize(base: Seq<char>, abs: Seq<char>) -> Option<Seq<char>> {
    if abs.len() >= base.len() && abs.subrange(0, base.len() as int) == base {
        let rest = abs.subrange(base.len() as int, abs.len() as int);
        if rest.len() > 0 && is_sep(rest[0]) {
            Some(norm_all(rest.subrange(1, rest.len() as int)))
        } else if rest.len() == 0 || base.len() == 0 || is_sep(base[base.len() - 1]) {
            Some(norm_all(rest))
        } else {
            None
        }
    } else {
        None
    }
}

/// Character-wise equality of two string slices.
pub fn str_eq(a: &str, b: &str) -> (r: bool)
    ensures
        r == (a@ == b@),
{
    let alen = a.unicode_len();
    let blen = b.unicode_len();
    if alen != blen {
        return false;
    }
    let mut i: usize = 0;
    while i < alen
        invariant
            alen == a@.len(),
            alen == b@.len(),
            i <= alen,
            forall|j: int| 0 <= j < i ==> a@[j] == b@[j],
        decreases alen - i,
    {
        if a.get_char(i) != b.get_char(i) {
            return false;
        }
        i += 1;
    }
    proof {
        assert(a@ =~= b@);
    }
    true
}

/// Relativizes the notified absolute path `absolute` against the watched
/// root `base` and normalizes its separators.
pub fn normalize_notification(base: &str, absolute: &str) -> (r: Option<String>)
    ensures
        match r {
            Some(s) => spec_normalize(base@, absolute@) == Some(s@),
            None => spec_normalize(base@, absolute@) is None,
        },
{
    let blen = base.unicode_len();
    let alen = absolute.unicode_len();
    if alen < blen {
        return None;
    }
    let mut i: usize = 0;
    while i < blen
        invariant
            blen == base@.len(),
            alen == absolute@.len(),
            blen <= alen,
            i <= blen,
            forall|j: int| 0 <= j < i ==> absolute@[j] == base@[j],
        decreases blen - i,
    {
        if absolute.get_char(i) != base.get_char(i) {
            proof {
                assert(absolute@.subrange(0, blen as int)[i as int] != base@[i as int]);
            }
            return None;
        }
        i += 1;
    }
    proof {
        assert(absolute@.subrange(0, blen as int) =~= base@);
    }
    let mut start: usize = blen;
    if blen < alen {
        let c = absolute.get_char(blen);
        if c == '/' || c == '\\' {
            start = blen + 1;
        } else if blen > 0 {
            let last = base.get_char(blen - 1);
            if !(last == '/' || last == '\\') {
                return None;
            }
        }
    }
    let mut out = String::new();
    let mut j: usize = start;
    while j < alen
        invariant
            start <= j <= alen,
            alen == absolute@.len(),
            out@ == norm_all(absolute@.subrange(start as int, j as int)),
        decreases alen - j,
    {
        let c = absolute.get_char(j);
        if c == '\\' {
            out.append("/");
            proof {
                reveal_strlit("/");
            }
        } else {
            let piece = absolute.substring_char(j, j + 1);
            out.append(piece);
        }
        proof {
            assert(out@ =~= norm_all(absolute@.subrange(start as int, j + 1 as int)));
        }
        j += 1;
    }
    proof {
        let rest = absolute@.subrange(blen as int, alen as int);
        if rest.len() > 0 && is_sep(rest[0]) {
            assert(absolute@.subrange(start as int, alen as int) =~= rest.subrange(
                1,
                rest.len() as int,
            ));
        } else {
            assert(absolute@.subrange(start as int, alen as int) =~= rest);
        }
    }
    Some(out)
}

} // verus!
