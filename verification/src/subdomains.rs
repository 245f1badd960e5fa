use vstd::prelude::*;

use crate::model::{entry_views, domain_views, CrtShEntry, Subdomain};

verus! {

/// The whitespace characters stripped from the ends of each piece.
pub open spec fn is_space(c: char) -> bool {
    c == ' ' || c == '\t' || c == '\n' || c == '\r' || c == '\u{b}' || c == '\u{c}'
}

/// `s` with leading and trailing whitespace removed.
pub open spec fn spec_trim(s: Seq<char>) -> Seq<char>
    decreases s.len(),
{
    if s.len() == 0 {
        s
    } else if is_space(s[0]) {
        spec_trim(s.drop_first())
    } else if is_space(s.last()) {
        spec_trim(s.drop_last())
    } else {
        s
    }
}

/// Whether a name contains the wildcard character.
pub open spec fn has_star(s: Seq<char>) -> bool {
    exists|i: int| 0 <= i < s.len() && s[i] == '*'
}

/// `v` carries some string whose characters are `x`.
pub open spec fn mentions(v: Seq<String>, x: Seq<char>) -> bool {
    exists|k: int| 0 <= k < v.len() && v[k]@ == x
}

/// No two strings of `v` have the same characters.
pub open spec fn distinct_views(v: Seq<String>) -> bool {
    forall|p: int, q: int| 0 <= p < q < v.len() ==> v[p]@ != v[q]@
}

/// The character sequences of a list of strings.
pub open spec fn str_views(v: Seq<String>) -> Seq<Seq<char>> {
    v.map_values(|x: String| x@)
}

fn is_space_char(c: char) -> (r: bool)
    ensures
        r == is_space(c),
{
    c == ' ' || c == '\t' || c == '\n' || c == '\r' || c == '\u{b}' || c == '\u{c}'
}

proof fn lemma_trim_drop_front(s: Seq<char>, a: int, b: int)
    requires
        0 <= a < b <= s.len(),
        is_space(s[a]),
    ensures
        spec_trim(s.subrange(a, b)) == spec_trim(s.subrange(a + 1, b)),
{
    let t = s.subrange(a, b);
    assert(t[0] == s[a]);
    assert(t.drop_first() =~= s.subrange(a + 1, b));
}

proof fn lemma_trim_drop_back(s: Seq<char>, a: int, b: int)
    requires
        0 <= a < b <= s.len(),
        !is_space(s[a]),
        is_space(s[b - 1]),
    ensures
        spec_trim(s.subrange(a, b)) == spec_trim(s.subrange(a, b - 1)),
{
    let t = s.subrange(a, b);
    assert(t[0] == s[a]);
    assert(t.last() == s[b - 1]);
    assert(t.drop_last() =~= s.subrange(a, b - 1));
}

proof fn lemma_trim_fixed(s: Seq<char>, a: int, b: int)
    requires
        0 <= a <= b <= s.len(),
        a == b || (!is_space(s[a]) && !is_space(s[b - 1])),
    ensures
        spec_trim(s.subrange(a, b)) == s.subrange(a, b),
{
    let t = s.subrange(a, b);
    if a < b {
        assert(t[0] == s[a]);
        assert(t.last() == s[b - 1]);
    }
}

/// The piece of `s` between `from` and `to`, trimmed of surrounding
/// whitespace, as an owned string.
fn trimmed_piece(s: &str, from: usize, to: usize) -> (r: String)
    requires
        from <= to <= s@.len(),
    ensures
        r@ == spec_trim(s@.subrange(from as int, to as int)),
{
    let mut a: usize = from;
    let mut b: usize = to;
    loop
        invariant
            from <= a <= b,
            b == to,
            to <= s@.len(),
            spec_trim(s@.subrange(from as int, to as int)) == spec_trim(
                s@.subrange(a as int, b as int),
            ),
        ensures
            from <= a <= b <= s@.len(),
            b == to,
            spec_trim(s@.subrange(from as int, to as int)) == spec_trim(
                s@.subrange(a as int, b as int),
            ),
            a == b || !is_space(s@[a as int]),
        decreases b - a,
    {
        if a >= b {
            break ;
        }
        if is_space_char(s.get_char(a)) {
            proof {
                lemma_trim_drop_front(s@, a as int, b as int);
            }
            a = a + 1;
        } else {
            break ;
        }
    }
    loop
        invariant
            from <= a <= b <= to,
            to <= s@.len(),
            a == b || !is_space(s@[a as int]),
            spec_trim(s@.subrange(from as int, to as int)) == spec_trim(
                s@.subrange(a as int, b as int),
            ),
        ensures
            from <= a <= b <= s@.len(),
            a == b || (!is_space(s@[a as int]) && !is_space(s@[b as int - 1])),
            spec_trim(s@.subrange(from as int, to as int)) == spec_trim(
                s@.subrange(a as int, b as int),
            ),
        decreases b,
    {
        if a >= b {
            break ;
        }
        if is_space_char(s.get_char(b - 1)) {
            proof {
                lemma_trim_drop_back(s@, a as int, b as int);
            }
            b = b - 1;
        } else {
            break ;
        }
    }
    proof {
        lemma_trim_fixed(s@, a as int, b as int);
    }
    let piece = s.substring_char(a, b);
    String::from_str(piece)
}

/// Whether the string holds a `*` anywhere.
fn contains_star(s: &String) -> (r: bool)
    ensures
        r == has_star(s@),
{
    let n = s.as_str().unicode_len();
    let mut i: usize = 0;
    while i < n
        invariant
            i <= n,
            n == s@.len(),
            forall|k: int| 0 <= k < i ==> s@[k] != '*',
        decreases n - i,
    {
        if s.as_str().get_char(i) == '*' {
            proof {
                assert(s@[i as int] == '*');
            }
            return true;
        }
        i = i + 1;
    }
    proof {
        if has_star(s@) {
            let k = choose|k: int| 0 <= k < s@.len() && s@[k] == '*';
            assert(false);
        }
    }
    false
}

/// `i..j` delimits one newline-separated piece of `s`: it starts at the
/// beginning or right after a newline, ends at the end or right before a
/// newline, and holds no newline itself.
pub open spec fn is_piece(s: Seq<char>, i: int, j: int) -> bool {
    &&& 0 <= i <= j <= s.len()
    &&& (i == 0 || s[i - 1] == '\n')
    &&& (j == s.len() || s[j] == '\n')
    &&& forall|k: int| i <= k < j ==> s[k] != '\n'
}

/// A trimmed piece survives the policy filter: it is not the target itself
/// and carries no wildcard.
pub open spec fn kept(target: Seq<char>, x: Seq<char>) -> bool {
    x != target && !has_star(x)
}

/// The piece of `s` delimited by `i..j`, once trimmed, is `x`, and survives
/// the filter.
pub open spec fn piece_gives(target: Seq<char>, s: Seq<char>, i: int, j: int, x: Seq<char>) -> bool {
    is_piece(s, i, j) && x == spec_trim(s.subrange(i, j)) && kept(target, x)
}

/// `x` is the trimmed form of some surviving piece of `s`.
pub open spec fn kept_piece(target: Seq<char>, s: Seq<char>, x: Seq<char>) -> bool {
    exists|i: int, j: int| piece_gives(target, s, i, j, x)
}

/// Like `kept_piece`, but only for pieces closed off before `limit`.
spec fn kept_piece_before(target: Seq<char>, s: Seq<char>, limit: int, x: Seq<char>) -> bool {
    exists|i: int, j: int| j < limit && piece_gives(target, s, i, j, x)
}

/// Membership in the candidate set: the target itself, or the trimmed form
/// of a surviving piece of some entry.
pub open spec fn is_candidate(target: Seq<char>, entries: Seq<Seq<char>>, x: Seq<char>) -> bool {
    x == target || exists|e: int| 0 <= e < entries.len() && kept_piece(target, entries[e], x)
}

/// Like `is_candidate`, restricted to the first `upto` entries.
spec fn is_candidate_upto(target: Seq<char>, entries: Seq<Seq<char>>, upto: int, x: Seq<char>) -> bool {
    x == target || exists|e: int| 0 <= e < upto && kept_piece(target, entries[e], x)
}

/// A piece is determined by where it ends: two pieces closed off at the same
/// position start at the same position.
proof fn lemma_piece_start_unique(s: Seq<char>, i1: int, i2: int, j: int)
    requires
        is_piece(s, i1, j),
        is_piece(s, i2, j),
    ensures
        i1 == i2,
{
    if i1 < i2 {
        assert(s[i2 - 1] == '\n');
        assert(i1 <= i2 - 1 < j);
        assert(false);
    }
    if i2 < i1 {
        assert(s[i1 - 1] == '\n');
        assert(i2 <= i1 - 1 < j);
        assert(false);
    }
}

proof fn lemma_mentions_push(v: Seq<String>, p: String, x: Seq<char>)
    ensures
        mentions(v.push(p), x) <==> (mentions(v, x) || p@ == x),
{
    if mentions(v.push(p), x) {
        let k = choose|k: int| 0 <= k < v.push(p).len() && v.push(p)[k]@ == x;
        if k < v.len() {
            assert(v[k]@ == x);
        } else {
            assert(p@ == x);
        }
    }
    if mentions(v, x) {
        let k = choose|k: int| 0 <= k < v.len() && v[k]@ == x;
        assert(v.push(p)[k]@ == x);
    }
    if p@ == x {
        assert(v.push(p)[v.len() as int]@ == x);
    }
}

/// Whether some string of `v` has the same characters as `x`.
fn contains_string(v: &Vec<String>, x: &String) -> (r: bool)
    ensures
        r == mentions(v@, x@),
{
    let mut j: usize = 0;
    while j < v.len()
        invariant
            j <= v.len(),
            forall|k: int| 0 <= k < j ==> v@[k]@ != x@,
        decreases v.len() - j,
    {
        let vj: &String = &v[j];
        if *vj == *x {
            proof {
                assert(v@[j as int]@ == x@);
            }
            return true;
        }
        j = j + 1;
    }
    proof {
        if mentions(v@, x@) {
            let k = choose|k: int| 0 <= k < v@.len() && v@[k]@ == x@;
            assert(false);
        }
    }
    false
}

/// Trims the piece of `s` delimited by `from..to` and appends it to `acc`
/// when it survives the filter and is not yet present.
fn consider_piece(target: &String, s: &str, from: usize, to: usize, acc: &mut Vec<String>)
    requires
        from <= to <= s@.len(),
        distinct_views(old(acc)@),
    ensures
        distinct_views(final(acc)@),
        forall|x: Seq<char>|
            #![trigger mentions(final(acc)@, x)]
            #![trigger mentions(old(acc)@, x)]
            mentions(final(acc)@, x) <==> (mentions(old(acc)@, x) || (x == spec_trim(
                s@.subrange(from as int, to as int),
            ) && kept(target@, x))),
{
    let piece = trimmed_piece(s, from, to);
    let keep = if contains_star(&piece) {
        false
    } else {
        !(piece == *target)
    };
    if keep {
        if !contains_string(acc, &piece) {
            let ghost pre = acc@;
            acc.push(piece);
            proof {
                assert forall|x: Seq<char>|
                    mentions(acc@, x) <==> (mentions(pre, x) || (x == spec_trim(
                        s@.subrange(from as int, to as int),
                    ) && kept(target@, x))) by {
                    lemma_mentions_push(pre, acc@.last(), x);
                }
                assert forall|p: int, q: int| 0 <= p < q < acc@.len() implies acc@[p]@
                    != acc@[q]@ by {
                    if q == acc@.len() - 1 {
                        assert(!mentions(pre, acc@[q]@));
                        assert(pre[p]@ != acc@[q]@);
                    } else {
                        assert(pre[p]@ != pre[q]@);
                    }
                }
            }
        }
    }
}

/// No piece at all is closed off before position zero.
proof fn lemma_before_zero(target: Seq<char>, s: Seq<char>)
    ensures
        forall|x: Seq<char>| !(#[trigger] kept_piece_before(target, s, 0, x)),
{
    assert forall|x: Seq<char>| !kept_piece_before(target, s, 0, x) by {
        if kept_piece_before(target, s, 0, x) {
            let (i, j) = choose|i: int, j: int| j < 0 && piece_gives(target, s, i, j, x);
            assert(false);
        }
    }
}

/// Passing a newline at `pos` closes off exactly the piece that started at
/// `start`; the pieces seen so far grow by its trimmed form, if kept.
proof fn lemma_before_step_newline(target: Seq<char>, s: Seq<char>, start: int, pos: int)
    requires
        0 <= start <= pos < s.len(),
        start == 0 || s[start - 1] == '\n',
        forall|k: int| start <= k < pos ==> s[k] != '\n',
        s[pos] == '\n',
    ensures
        forall|x: Seq<char>|
            #![trigger kept_piece_before(target, s, pos + 1, x)]
            #![trigger kept_piece_before(target, s, pos, x)]
            kept_piece_before(target, s, pos + 1, x) <==> (kept_piece_before(target, s, pos, x)
                || (x == spec_trim(s.subrange(start, pos)) && kept(target, x))),
{
    assert(is_piece(s, start, pos));
    assert forall|x: Seq<char>|
        kept_piece_before(target, s, pos + 1, x) <==> (kept_piece_before(target, s, pos, x) || (x
            == spec_trim(s.subrange(start, pos)) && kept(target, x))) by {
        if kept_piece_before(target, s, pos + 1, x) {
            let (i, j) = choose|i: int, j: int| j < pos + 1 && piece_gives(target, s, i, j, x);
            if j == pos {
                lemma_piece_start_unique(s, i, start, pos);
            }
        }
        if kept_piece_before(target, s, pos, x) {
            let (i, j) = choose|i: int, j: int| j < pos && piece_gives(target, s, i, j, x);
            assert(j < pos + 1 && piece_gives(target, s, i, j, x));
        }
        if x == spec_trim(s.subrange(start, pos)) && kept(target, x) {
            assert(pos < pos + 1 && piece_gives(target, s, start, pos, x));
        }
    }
}

/// Passing an ordinary character closes off no piece.
proof fn lemma_before_step_plain(target: Seq<char>, s: Seq<char>, pos: int)
    requires
        0 <= pos < s.len(),
        s[pos] != '\n',
    ensures
        forall|x: Seq<char>|
            #![trigger kept_piece_before(target, s, pos + 1, x)]
            #![trigger kept_piece_before(target, s, pos, x)]
            kept_piece_before(target, s, pos + 1, x) <==> kept_piece_before(target, s, pos, x),
{
    assert forall|x: Seq<char>|
        kept_piece_before(target, s, pos + 1, x) <==> kept_piece_before(target, s, pos, x) by {
        if kept_piece_before(target, s, pos + 1, x) {
            let (i, j) = choose|i: int, j: int| j < pos + 1 && piece_gives(target, s, i, j, x);
            assert(j != pos);
            assert(j < pos && piece_gives(target, s, i, j, x));
        }
        if kept_piece_before(target, s, pos, x) {
            let (i, j) = choose|i: int, j: int| j < pos && piece_gives(target, s, i, j, x);
            assert(j < pos + 1 && piece_gives(target, s, i, j, x));
        }
    }
}

/// At the end of the text, the pieces of `s` are the ones closed off by a
/// newline plus the final piece, which started at `start`.
proof fn lemma_final_piece(target: Seq<char>, s: Seq<char>, start: int)
    requires
        0 <= start <= s.len(),
        start == 0 || s[start - 1] == '\n',
        forall|k: int| start <= k < s.len() ==> s[k] != '\n',
    ensures
        forall|x: Seq<char>|
            #![trigger kept_piece(target, s, x)]
            #![trigger kept_piece_before(target, s, s.len() as int, x)]
            kept_piece(target, s, x) <==> (kept_piece_before(target, s, s.len() as int, x) || (x
                == spec_trim(s.subrange(start, s.len() as int)) && kept(target, x))),
{
    assert(is_piece(s, start, s.len() as int));
    assert forall|x: Seq<char>|
        kept_piece(target, s, x) <==> (kept_piece_before(target, s, s.len() as int, x) || (x
            == spec_trim(s.subrange(start, s.len() as int)) && kept(target, x))) by {
        if kept_piece(target, s, x) {
            let (i, j) = choose|i: int, j: int| piece_gives(target, s, i, j, x);
            if j == s.len() {
                lemma_piece_start_unique(s, i, start, j);
            } else {
                assert(j < s.len() && piece_gives(target, s, i, j, x));
            }
        }
        if kept_piece_before(target, s, s.len() as int, x) {
            let (i, j) = choose|i: int, j: int| j < s.len() && piece_gives(target, s, i, j, x);
            assert(piece_gives(target, s, i, j, x));
        }
        if x == spec_trim(s.subrange(start, s.len() as int)) && kept(target, x) {
            assert(piece_gives(target, s, start, s.len() as int, x));
        }
    }
}

/// Splits one raw record on newlines, trims each piece, applies the filter,
/// and appends the surviving names that are not yet present.
fn add_entry_names(target: &String, s: &str, acc: &mut Vec<String>)
    requires
        distinct_views(old(acc)@),
    ensures
        distinct_views(final(acc)@),
        forall|x: Seq<char>|
            #![trigger mentions(final(acc)@, x)]
            #![trigger mentions(old(acc)@, x)]
            mentions(final(acc)@, x) <==> (mentions(old(acc)@, x) || kept_piece(target@, s@, x)),
{
    let n = s.unicode_len();
    let mut start: usize = 0;
    let mut pos: usize = 0;
    proof {
        lemma_before_zero(target@, s@);
    }
    while pos < n
        invariant
            start <= pos <= n,
            n == s@.len(),
            distinct_views(acc@),
            start == 0 || s@[start - 1] == '\n',
            forall|k: int| start <= k < pos ==> s@[k] != '\n',
            forall|x: Seq<char>|
                mentions(acc@, x) <==> (mentions(old(acc)@, x) || kept_piece_before(
                    target@,
                    s@,
                    pos as int,
                    x,
                )),
        decreases n - pos,
    {
        if s.get_char(pos) == '\n' {
            let ghost pre = acc@;
            consider_piece(target, s, start, pos, acc);
            proof {
                lemma_before_step_newline(target@, s@, start as int, pos as int);
                assert forall|x: Seq<char>|
                    mentions(acc@, x) <==> (mentions(old(acc)@, x) || kept_piece_before(
                        target@,
                        s@,
                        pos as int + 1,
                        x,
                    )) by {
                    assert(mentions(acc@, x) <==> (mentions(pre, x) || (x == spec_trim(
                        s@.subrange(start as int, pos as int),
                    ) && kept(target@, x))));
                    assert(mentions(pre, x) <==> (mentions(old(acc)@, x) || kept_piece_before(
                        target@,
                        s@,
                        pos as int,
                        x,
                    )));
                    assert(kept_piece_before(target@, s@, pos as int + 1, x) <==> (
                    kept_piece_before(target@, s@, pos as int, x) || (x == spec_trim(
                        s@.subrange(start as int, pos as int),
                    ) && kept(target@, x))));
                }
            }
            start = pos + 1;
        } else {
            proof {
                lemma_before_step_plain(target@, s@, pos as int);
                assert forall|x: Seq<char>|
                    mentions(acc@, x) <==> (mentions(old(acc)@, x) || kept_piece_before(
                        target@,
                        s@,
                        pos as int + 1,
                        x,
                    )) by {
                    assert(mentions(acc@, x) <==> (mentions(old(acc)@, x) || kept_piece_before(
                        target@,
                        s@,
                        pos as int,
                        x,
                    )));
                    assert(kept_piece_before(target@, s@, pos as int + 1, x) <==> kept_piece_before(
                        target@,
                        s@,
                        pos as int,
                        x,
                    ));
                }
            }
        }
        pos = pos + 1;
    }
    let ghost pre = acc@;
    consider_piece(target, s, start, n, acc);
    proof {
        lemma_final_piece(target@, s@, start as int);
        assert forall|x: Seq<char>|
            mentions(acc@, x) <==> (mentions(old(acc)@, x) || kept_piece(target@, s@, x)) by {
            assert(mentions(acc@, x) <==> (mentions(pre, x) || (x == spec_trim(
                s@.subrange(start as int, n as int),
            ) && kept(target@, x))));
            assert(mentions(pre, x) <==> (mentions(old(acc)@, x) || kept_piece_before(
                target@,
                s@,
                n as int,
                x,
            )));
            assert(kept_piece(target@, s@, x) <==> (kept_piece_before(target@, s@, n as int, x) || (
            x == spec_trim(s@.subrange(start as int, n as int)) && kept(target@, x))));
        }
    }
}

proof fn lemma_upto_zero(target: Seq<char>, entries: Seq<Seq<char>>)
    ensures
        forall|x: Seq<char>|
            #[trigger] is_candidate_upto(target, entries, 0, x) <==> x == target,
{
    assert forall|x: Seq<char>|
        is_candidate_upto(target, entries, 0, x) <==> x == target by {
        if is_candidate_upto(target, entries, 0, x) && x != target {
            let e = choose|e: int| 0 <= e < 0 && kept_piece(target, entries[e], x);
            assert(false);
        }
    }
}

proof fn lemma_upto_step(target: Seq<char>, entries: Seq<Seq<char>>, e: int)
    requires
        0 <= e < entries.len(),
    ensures
        forall|x: Seq<char>|
            #![trigger is_candidate_upto(target, entries, e + 1, x)]
            #![trigger is_candidate_upto(target, entries, e, x)]
            is_candidate_upto(target, entries, e + 1, x) <==> (is_candidate_upto(
                target,
                entries,
                e,
                x,
            ) || kept_piece(target, entries[e], x)),
{
    assert forall|x: Seq<char>|
        is_candidate_upto(target, entries, e + 1, x) <==> (is_candidate_upto(target, entries, e, x)
            || kept_piece(target, entries[e], x)) by {
        if is_candidate_upto(target, entries, e + 1, x) && x != target {
            let e2 = choose|e2: int| 0 <= e2 < e + 1 && kept_piece(target, entries[e2], x);
            if e2 < e {
                assert(0 <= e2 < e && kept_piece(target, entries[e2], x));
            }
        }
        if is_candidate_upto(target, entries, e, x) && x != target {
            let e2 = choose|e2: int| 0 <= e2 < e && kept_piece(target, entries[e2], x);
            assert(0 <= e2 < e + 1 && kept_piece(target, entries[e2], x));
        }
        if kept_piece(target, entries[e], x) {
            assert(0 <= e < e + 1 && kept_piece(target, entries[e], x));
        }
    }
}

proof fn lemma_upto_full(target: Seq<char>, entries: Seq<Seq<char>>)
    ensures
        forall|x: Seq<char>|
            #[trigger] is_candidate(target, entries, x) <==> is_candidate_upto(
                target,
                entries,
                entries.len() as int,
                x,
            ),
{
    assert forall|x: Seq<char>|
        is_candidate(target, entries, x) <==> is_candidate_upto(
            target,
            entries,
            entries.len() as int,
            x,
        ) by {
        if is_candidate(target, entries, x) && x != target {
            let e = choose|e: int| 0 <= e < entries.len() && kept_piece(target, entries[e], x);
            assert(0 <= e < entries.len() as int && kept_piece(target, entries[e], x));
        }
        if is_candidate_upto(target, entries, entries.len() as int, x) && x != target {
            let e = choose|e: int|
                0 <= e < entries.len() as int && kept_piece(target, entries[e], x);
            assert(0 <= e < entries.len() && kept_piece(target, entries[e], x));
        }
    }
}

/// Derives the deduplicated candidate set from the raw records: every
/// newline-separated piece of every record is trimmed; pieces equal to the
/// target itself or containing a wildcard are dropped; the survivors are
/// kept once each, and the target is always included.
pub fn extract(target: &String, entries: &Vec<CrtShEntry>) -> (r: Vec<String>)
    ensures
        distinct_views(r@),
        forall|x: Seq<char>|
            #![trigger mentions(r@, x)]
            mentions(r@, x) <==> is_candidate(target@, entry_views(entries@), x),
        mentions(r@, target@),
{
    let ghost evs = entry_views(entries@);
    let mut r: Vec<String> = Vec::new();
    r.push(target.clone());
    proof {
        lemma_upto_zero(target@, evs);
        assert(r@[0]@ == target@);
        assert forall|x: Seq<char>|
            mentions(r@, x) <==> is_candidate_upto(target@, evs, 0, x) by {
            if mentions(r@, x) {
                let k = choose|k: int| 0 <= k < r@.len() && r@[k]@ == x;
                assert(k == 0);
            }
        }
    }
    let mut e: usize = 0;
    while e < entries.len()
        invariant
            e <= entries.len(),
            evs == entry_views(entries@),
            distinct_views(r@),
            forall|x: Seq<char>|
                #![trigger mentions(r@, x)]
                mentions(r@, x) <==> is_candidate_upto(target@, evs, e as int, x),
        decreases entries.len() - e,
    {
        let ghost pre = r@;
        add_entry_names(target, entries[e].name_value.as_str(), &mut r);
        proof {
            lemma_upto_step(target@, evs, e as int);
            assert(evs[e as int] == entries@[e as int].name_value@);
            assert forall|x: Seq<char>|
                mentions(r@, x) <==> is_candidate_upto(target@, evs, e as int + 1, x) by {
                assert(mentions(r@, x) <==> (mentions(pre, x) || kept_piece(
                    target@,
                    entries@[e as int].name_value@,
                    x,
                )));
                assert(mentions(pre, x) <==> is_candidate_upto(target@, evs, e as int, x));
                assert(is_candidate_upto(target@, evs, e as int + 1, x) <==> (is_candidate_upto(
                    target@,
                    evs,
                    e as int,
                    x,
                ) || kept_piece(target@, evs[e as int], x)));
            }
        }
        e = e + 1;
    }
    proof {
        lemma_upto_full(target@, evs);
        assert(is_candidate(target@, evs, target@));
    }
    r
}

/// A candidate other than the target never carries a wildcard: every piece
/// equal to the target or containing `*` was dropped, and only the target's
/// own unconditional insertion escapes the filter.
pub proof fn lemma_candidate_wildcard_free(target: Seq<char>, entries: Seq<Seq<char>>, x: Seq<char>)
    requires
        is_candidate(target, entries, x),
        x != target,
    ensures
        !has_star(x),
{
    let e = choose|e: int| 0 <= e < entries.len() && kept_piece(target, entries[e], x);
    let (i, j) = choose|i: int, j: int| piece_gives(target, entries[e], i, j, x);
    assert(kept(target, x));
}

/// The target appears exactly once: it is present, and a deduplicated list
/// holds no string at two positions.
pub proof fn lemma_target_exactly_once(r: Seq<String>, target: Seq<char>)
    requires
        distinct_views(r),
        mentions(r, target),
    ensures
        exists|k: int| 0 <= k < r.len() && r[k]@ == target,
        forall|k1: int, k2: int|
            0 <= k1 < r.len() && 0 <= k2 < r.len() && r[k1]@ == target && r[k2]@ == target ==> k1
                == k2,
{
    assert forall|k1: int, k2: int|
        0 <= k1 < r.len() && 0 <= k2 < r.len() && r[k1]@ == target && r[k2]@ == target implies k1
        == k2 by {
        if k1 < k2 {
            assert(r[k1]@ != r[k2]@);
        }
        if k2 < k1 {
            assert(r[k2]@ != r[k1]@);
        }
    }
}

/// Extraction is a function of its input alone: two runs on the same target
/// and records agree on membership, whatever order either one lists it in.
pub proof fn lemma_extract_idempotent(
    target: Seq<char>,
    entries: Seq<Seq<char>>,
    r1: Seq<String>,
    r2: Seq<String>,
)
    requires
        forall|x: Seq<char>|
            #![trigger mentions(r1, x)]
            mentions(r1, x) <==> is_candidate(target, entries, x),
        forall|x: Seq<char>|
            #![trigger mentions(r2, x)]
            mentions(r2, x) <==> is_candidate(target, entries, x),
    ensures
        forall|x: Seq<char>| #![trigger mentions(r1, x)] mentions(r1, x) <==> mentions(r2, x),
{
    assert forall|x: Seq<char>| mentions(r1, x) <==> mentions(r2, x) by {
        assert(mentions(r1, x) <==> is_candidate(target, entries, x));
        assert(mentions(r2, x) <==> is_candidate(target, entries, x));
    }
}

/// The names whose lookup succeeded, in the order they were handed in.
pub open spec fn selected(names: Seq<Seq<char>>, flags: Seq<bool>) -> Seq<Seq<char>>
    decreases names.len(),
{
    if names.len() == 0 {
        Seq::empty()
    } else if flags[names.len() - 1] {
        selected(names.drop_last(), flags.drop_last()).push(names.last())
    } else {
        selected(names.drop_last(), flags.drop_last())
    }
}

/// The filtering pass of the validator: keeps the candidates whose DNS
/// lookup succeeded, in order, each as a port-empty record ready for a scan.
/// The lookup outcomes are handed in, one per candidate.
pub fn select_resolved(names: &Vec<String>, resolved: &Vec<bool>) -> (r: Vec<Subdomain>)
    requires
        names@.len() == resolved@.len(),
    ensures
        domain_views(r@) == selected(str_views(names@), resolved@),
        forall|i: int| 0 <= i < r@.len() ==> r@[i].open_ports@.len() == 0,
{
    let ghost ns = str_views(names@);
    let mut r: Vec<Subdomain> = Vec::new();
    let mut i: usize = 0;
    proof {
        assert(ns.subrange(0, 0) =~= Seq::<Seq<char>>::empty());
        assert(resolved@.subrange(0, 0) =~= Seq::<bool>::empty());
        assert(domain_views(r@) =~= Seq::<Seq<char>>::empty());
    }
    while i < names.len()
        invariant
            i <= names.len(),
            names@.len() == resolved@.len(),
            ns == str_views(names@),
            domain_views(r@) == selected(ns.subrange(0, i as int), resolved@.subrange(0, i as int)),
            forall|k: int| 0 <= k < r@.len() ==> r@[k].open_ports@.len() == 0,
        decreases names.len() - i,
    {
        let ghost pre = r@;
        if resolved[i] {
            let nref: &String = &names[i];
            let sub = Subdomain { domain: nref.clone(), open_ports: Vec::new() };
            r.push(sub);
        }
        proof {
            let sv_pre = ns.subrange(0, i as int);
            let sv_post = ns.subrange(0, i as int + 1);
            let fl_pre = resolved@.subrange(0, i as int);
            let fl_post = resolved@.subrange(0, i as int + 1);
            assert(sv_post.drop_last() =~= sv_pre);
            assert(fl_post.drop_last() =~= fl_pre);
            assert(sv_post.last() == names@[i as int]@);
            assert(fl_post.last() == resolved@[i as int]);
            if resolved@[i as int] {
                assert(domain_views(r@) =~= domain_views(pre).push(names@[i as int]@));
            } else {
                assert(domain_views(r@) == domain_views(pre));
            }
        }
        i = i + 1;
    }
    proof {
        assert(ns.subrange(0, names@.len() as int) =~= ns);
        assert(resolved@.subrange(0, resolved@.len() as int) =~= resolved@);
    }
    r
}

} // verus!
