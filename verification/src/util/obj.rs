use vstd::prelude::*;
use crate::util::decimal::parse_uint;
use crate::util::decimal::parse_uint_range;

verus! {

/// The fields of `s` between slashes, in order: `a//b` has the fields `a`,
/// the empty field and `b`; the empty text has one empty field.
pub open spec fn slash_fields(s: Seq<u8>) -> Seq<Seq<u8>>
    decreases s.len(),
{
    if s.len() == 0 {
        seq![Seq::empty()]
    } else {
        let f = slash_fields(s.drop_last());
        if s.last() == 47 {
            f.push(Seq::empty())
        } else {
            f.update(f.len() - 1, f.last().push(s.last()))
        }
    }
}

/// The zero-based index that one field of an OBJ face vertex (`v/vt/vn`)
/// gives: one less than the one-based number written, or `usize::MAX` where
/// no number is written.
pub open spec fn field_index(f: Seq<u8>) -> usize {
    match parse_uint(f) {
        Some(v) => (v - 1) as usize,
        None => usize::MAX,
    }
}

/// A field that writes the number 0, which has no zero-based index.
pub open spec fn is_zero_field(f: Seq<u8>) -> bool {
    parse_uint(f) == Some(0nat)
}

proof fn lemma_slash_fields_nonempty(s: Seq<u8>)
    ensures
        slash_fields(s).len() >= 1,
    decreases s.len(),
{
    if s.len() > 0 {
        lemma_slash_fields_nonempty(s.drop_last());
    }
}

/// The zero-based indices of one vertex of an OBJ face, such as `12//4`
/// (vertex 12, no texture coordinate, normal 4): one entry per
/// slash-separated field. `None` where a field is the number 0, which
/// one-based indices never are.
pub fn face_vertex_indices(token: &[u8]) -> (r: Option<Vec<usize>>)
    ensures
        match r {
            Some(v) => {
                &&& v@.len() == slash_fields(token@).len()
                &&& forall|j: int| 0 <= j < v@.len() ==> #[trigger] v@[j] == field_index(slash_fields(token@)[j])
                &&& forall|j: int| 0 <= j < v@.len() ==> !is_zero_field(#[trigger] slash_fields(token@)[j])
            },
            None => exists|j: int|
                0 <= j < slash_fields(token@).len() && #[trigger] is_zero_field(slash_fields(token@)[j]),
        },
{
    let n = token.len();
    let mut out: Vec<usize> = Vec::new();
    let ghost mut done: Seq<Seq<u8>> = Seq::empty();
    let mut start: usize = 0;
    let mut i: usize = 0;
    assert(token@.take(0) == Seq::<u8>::empty());
    while i < n
        invariant
            start <= i <= n,
            n == token@.len(),
            slash_fields(token@.take(i as int)) == done + seq![token@.subrange(start as int, i as int)],
            out@.len() == done.len(),
            forall|j: int| 0 <= j < done.len() ==> #[trigger] out@[j] == field_index(done[j]),
            forall|j: int| 0 <= j < done.len() ==> !is_zero_field(#[trigger] done[j]),
        decreases n - i,
    {
        let ghost prefix = token@.take(i + 1);
        assert(prefix.drop_last() == token@.take(i as int));
        assert(prefix.last() == token@[i as int]);
        if token[i] == 47 {
            let ghost field = token@.subrange(start as int, i as int);
            let index = match parse_uint_range(token, start, i) {
                Some(v) => {
                    if v == 0 {
                        proof {
                            lemma_slash_fields_nonempty(token@);
                            assert(is_zero_field(field));
                            lemma_prefix_fields(token@, i as int + 1, done.len() as int);
                            assert(slash_fields(token@)[done.len() as int] == field);
                        }
                        return None;
                    }
                    v - 1
                },
                None => usize::MAX,
            };
            out.push(index);
            proof {
                done = done.push(field);
            }
            start = i + 1;
            assert(token@.subrange(start as int, i + 1) == Seq::<u8>::empty());
        } else {
            assert(token@.subrange(start as int, i + 1) == token@.subrange(start as int, i as int).push(
                token@[i as int],
            ));
        }
        i = i + 1;
    }
    assert(token@.take(n as int) == token@);
    let ghost field = token@.subrange(start as int, n as int);
    let index = match parse_uint_range(token, start, n) {
        Some(v) => {
            if v == 0 {
                assert(slash_fields(token@)[done.len() as int] == field);
                assert(is_zero_field(field));
                return None;
            }
            v - 1
        },
        None => usize::MAX,
    };
    out.push(index);
    proof {
        done = done.push(field);
        assert(slash_fields(token@) == done);
    }
    Some(out)
}

/// The fields found in a prefix ending at a slash come first among all
/// fields, unchanged.
proof fn lemma_prefix_fields(s: Seq<u8>, k: int, m: int)
    requires
        0 < k <= s.len(),
        s[k - 1] == 47,
        0 <= m < slash_fields(s.take(k)).len() - 1,
    ensures
        slash_fields(s)[m] == slash_fields(s.take(k))[m],
        slash_fields(s).len() >= slash_fields(s.take(k)).len(),
    decreases s.len() - k,
{
    lemma_slash_fields_nonempty(s.take(k));
    if k == s.len() {
        assert(s.take(k) == s);
    } else {
        let t = s.take(s.len() - 1);
        assert(t.take(k) == s.take(k));
        lemma_prefix_fields_len(s, k);
        lemma_prefix_fields(t, k, m);
        assert(s.drop_last() == t);
        lemma_slash_fields_nonempty(t);
    }
}

proof fn lemma_prefix_fields_len(s: Seq<u8>, k: int)
    requires
        0 < k <= s.len(),
    ensures
        slash_fields(s).len() >= slash_fields(s.take(k)).len(),
    decreases s.len() - k,
{
    if k < s.len() {
        let t = s.take(s.len() - 1);
        assert(t.take(k) == s.take(k));
        lemma_prefix_fields_len(t, k);
        assert(s.drop_last() == t);
        lemma_slash_fields_nonempty(t);
    } else {
        assert(s.take(k) == s);
    }
}

} // verus!
