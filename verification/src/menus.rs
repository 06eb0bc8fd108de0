//! What the menus compute: server identifiers, parsed settings, and which entry a menu
//! choice stands for.
use vstd::prelude::*;
use crate::config::{opt_view, ServerEntry};
use crate::software::Software;
use crate::text::{
    ascii_alphanumeric, ascii_char, ascii_lower, ascii_text, char_is_alphanumeric, chars_of, decimal, is_alphanumeric, is_whitespace, join_with,
    lemma_decimal_digits, lemma_leading_ws_unique, lemma_parse_decimal,
    lemma_split_on_append, lemma_split_on_nonempty, lemma_split_on_push, lemma_trailing_ws_unique, lowercase,
    nonempty_pieces, parse_u32, parse_u32_str, split_on, str_eq, string_of, to_lowercase, trim,
    trim_str,
};

verus! {

/// What a character of a lower-cased name becomes in an identifier: itself when it is
/// alphanumeric, `_` otherwise.
pub open spec fn slug_char(c: char) -> char {
    if is_alphanumeric(c) {
        c
    } else {
        '_'
    }
}

/// The identifier made from a name: lower-cased, every non-alphanumeric character turned
/// into `_`, runs of `_` collapsed and `_` at either end dropped.
pub open spec fn slug(s: Seq<char>) -> Seq<char> {
    slug_of_lower(lowercase(s))
}

/// The identifier made from an already lower-cased name: every non-alphanumeric character
/// turned into `_`, runs of `_` collapsed and `_` at either end dropped.
pub open spec fn slug_of_lower(l: Seq<char>) -> Seq<char> {
    let mapped = l.map_values(|c: char| slug_char(c));
    join_with(nonempty_pieces(split_on(mapped, '_')), "_"@)
}

/// What a character of a lower-cased ASCII name becomes in an identifier: itself when it
/// is an ASCII letter or digit, `_` otherwise.
pub open spec fn ascii_slug_char(c: char) -> char {
    if ascii_alphanumeric(c) {
        c
    } else {
        '_'
    }
}

/// The identifier made from an already lower-cased ASCII name.
pub open spec fn ascii_slug_of_lower(l: Seq<char>) -> Seq<char> {
    let mapped = l.map_values(|c: char| ascii_slug_char(c));
    join_with(nonempty_pieces(split_on(mapped, '_')), "_"@)
}

/// The identifier made from an ASCII name.
pub open spec fn ascii_slug(s: Seq<char>) -> Seq<char> {
    ascii_slug_of_lower(s.map_values(|c: char| ascii_lower(c)))
}

/// A character an ASCII identifier is made of: `_`, a small letter or a digit.
pub open spec fn ascii_slug_part(c: char) -> bool {
    c == '_' || (97 <= (c as u32) <= 122) || (48 <= (c as u32) <= 57)
}

/// Splitting keeps what holds of every character other than the separator, and no piece
/// holds the separator.
proof fn lemma_split_chars(m: Seq<char>, c: char, p: spec_fn(char) -> bool)
    requires
        forall|i: int| 0 <= i < m.len() && #[trigger] m[i] != c ==> p(m[i]),
    ensures
        forall|k: int, i: int|
            0 <= k < split_on(m, c).len() && 0 <= i < split_on(m, c)[k].len() ==> #[trigger] split_on(m, c)[k][i] != c
                && p(split_on(m, c)[k][i]),
    decreases m.len(),
{
    if m.len() > 0 {
        let t = m.drop_last();
        let x = m.last();
        assert forall|i: int| 0 <= i < t.len() && #[trigger] t[i] != c implies p(t[i]) by {
            assert(t[i] == m[i]);
        }
        lemma_split_chars(t, c, p);
        lemma_split_on_nonempty(t, c);
        assert(t.push(x) =~= m);
        lemma_split_on_push(t, x, c);
        let q = split_on(t, c);
        if x != c {
            assert(m[m.len() - 1] == x);
            let w = q.last().push(x);
            assert forall|i: int| 0 <= i < w.len() implies #[trigger] w[i] != c && p(w[i]) by {
                if i < q.last().len() {
                    assert(w[i] == q[q.len() - 1][i]);
                }
            }
        }
    }
}

/// The non-empty pieces are non-empty and keep what holds of every character.
proof fn lemma_nonempty_chars(q: Seq<Seq<char>>, c: char, p: spec_fn(char) -> bool)
    requires
        forall|k: int, i: int| 0 <= k < q.len() && 0 <= i < q[k].len() ==> #[trigger] q[k][i] != c && p(q[k][i]),
    ensures
        forall|k: int| 0 <= k < nonempty_pieces(q).len() ==> #[trigger] nonempty_pieces(q)[k].len() > 0,
        forall|k: int, i: int|
            0 <= k < nonempty_pieces(q).len() && 0 <= i < nonempty_pieces(q)[k].len() ==> #[trigger] nonempty_pieces(q)[k][i]
                != c && p(nonempty_pieces(q)[k][i]),
    decreases q.len(),
{
    if q.len() > 0 {
        let t = q.drop_last();
        assert forall|k: int, i: int| 0 <= k < t.len() && 0 <= i < t[k].len() implies #[trigger] t[k][i] != c && p(t[k][i]) by {
            assert(t[k] == q[k]);
        }
        lemma_nonempty_chars(t, c, p);
        let l = q.last();
        assert forall|i: int| 0 <= i < l.len() implies #[trigger] l[i] != c && p(l[i]) by {
            assert(l == q[q.len() - 1]);
        }
        let r = nonempty_pieces(t);
        let np = nonempty_pieces(q);
        if l.len() > 0 {
            assert(np == r.push(l));
            assert forall|k: int| 0 <= k < np.len() implies #[trigger] np[k].len() > 0 by {
                if k < r.len() {
                    assert(np[k] == r[k]);
                }
            }
            assert forall|k: int, i: int| 0 <= k < np.len() && 0 <= i < np[k].len() implies #[trigger] np[k][i] != c && p(np[k][i]) by {
                if k < r.len() {
                    assert(np[k] == r[k]);
                } else {
                    assert(np[k] == l);
                }
            }
        } else {
            assert(np == r);
        }
    }
}

/// Joining keeps what holds of every character of the pieces and of the separator.
proof fn lemma_join_chars(ps: Seq<Seq<char>>, c: char, p: spec_fn(char) -> bool)
    requires
        p(c),
        forall|k: int, i: int| 0 <= k < ps.len() && 0 <= i < ps[k].len() ==> p(#[trigger] ps[k][i]),
    ensures
        forall|i: int| 0 <= i < join_with(ps, seq![c]).len() ==> p(#[trigger] join_with(ps, seq![c])[i]),
    decreases ps.len(),
{
    if ps.len() == 1 {
        assert forall|i: int| 0 <= i < ps[0].len() implies p(#[trigger] ps[0][i]) by {}
    } else if ps.len() > 1 {
        let t = ps.drop_last();
        assert forall|k: int, i: int| 0 <= k < t.len() && 0 <= i < t[k].len() implies p(#[trigger] t[k][i]) by {
            assert(t[k] == ps[k]);
        }
        lemma_join_chars(t, c, p);
        let a = join_with(t, seq![c]);
        let l = ps.last();
        let j = join_with(ps, seq![c]);
        assert(j == a + seq![c] + l);
        assert forall|i: int| 0 <= i < j.len() implies p(#[trigger] j[i]) by {
            if i < a.len() {
                assert(j[i] == a[i]);
            } else if i == a.len() {
                assert(j[i] == c);
            } else {
                assert(j[i] == l[i - a.len() - 1]);
                assert(l == ps[ps.len() - 1]);
            }
        }
    }
}

/// Splitting joined pieces that hold no separator gives the pieces back.
proof fn lemma_split_join(ps: Seq<Seq<char>>, c: char)
    requires
        ps.len() > 0,
        forall|k: int, i: int| 0 <= k < ps.len() && 0 <= i < ps[k].len() ==> #[trigger] ps[k][i] != c,
    ensures
        split_on(join_with(ps, seq![c]), c) == ps,
    decreases ps.len(),
{
    let l = ps.last();
    assert forall|i: int| 0 <= i < l.len() implies #[trigger] l[i] != c by {
        assert(l == ps[ps.len() - 1]);
    }
    if ps.len() == 1 {
        lemma_split_on_append(Seq::empty(), l, c);
        assert(Seq::<char>::empty() + l =~= l);
        assert(split_on(Seq::<char>::empty(), c) =~= seq![Seq::<char>::empty()]);
        assert(Seq::<char>::empty() + l =~= l);
        assert(seq![Seq::<char>::empty()].update(0, l) =~= ps);
    } else {
        let t = ps.drop_last();
        assert forall|k: int, i: int| 0 <= k < t.len() && 0 <= i < t[k].len() implies #[trigger] t[k][i] != c by {
            assert(t[k] == ps[k]);
        }
        lemma_split_join(t, c);
        let a = join_with(t, seq![c]);
        assert(join_with(ps, seq![c]) == a + seq![c] + l);
        lemma_split_on_push(a, c, c);
        assert(a.push(c) =~= a + seq![c]);
        lemma_split_on_append(a + seq![c], l, c);
        let q = t.push(Seq::<char>::empty());
        assert(Seq::<char>::empty() + l =~= l);
        assert(q.update(q.len() - 1, q.last() + l) =~= ps);
    }
}

/// Pieces that are all non-empty are their own non-empty pieces.
proof fn lemma_nonempty_fixed(ps: Seq<Seq<char>>)
    requires
        forall|k: int| 0 <= k < ps.len() ==> #[trigger] ps[k].len() > 0,
    ensures
        nonempty_pieces(ps) == ps,
    decreases ps.len(),
{
    if ps.len() > 0 {
        let t = ps.drop_last();
        assert forall|k: int| 0 <= k < t.len() implies #[trigger] t[k].len() > 0 by {
            assert(t[k] == ps[k]);
        }
        lemma_nonempty_fixed(t);
        assert(ps[ps.len() - 1].len() > 0);
        assert(t.push(ps.last()) =~= ps);
    }
}

/// Making an identifier of an ASCII name gives ASCII text that is its own identifier.
pub proof fn lemma_ascii_slug_idempotent(s: Seq<char>)
    requires
        ascii_text(s),
    ensures
        ascii_text(ascii_slug(s)),
        ascii_slug(ascii_slug(s)) == ascii_slug(s),
{
    reveal_strlit("_");
    assert("_"@ =~= seq!['_']);
    let l = s.map_values(|c: char| ascii_lower(c));
    let m = l.map_values(|c: char| ascii_slug_char(c));
    let part = |c: char| ascii_slug_part(c);
    assert forall|i: int| 0 <= i < m.len() && #[trigger] m[i] != '_' implies part(m[i]) by {
        assert(m[i] == ascii_slug_char(l[i]));
        assert(l[i] == ascii_lower(s[i]));
        assert(ascii_char(s[i]));
    }
    lemma_split_chars(m, '_', part);
    let q = split_on(m, '_');
    lemma_nonempty_chars(q, '_', part);
    let ps = nonempty_pieces(q);
    assert forall|k: int, i: int| 0 <= k < ps.len() && 0 <= i < ps[k].len() implies part(#[trigger] ps[k][i]) by {
        assert(ps[k][i] != '_' && part(ps[k][i]));
    }
    lemma_join_chars(ps, '_', part);
    let r = join_with(ps, seq!['_']);
    assert(r == ascii_slug(s));
    assert forall|i: int| 0 <= i < r.len() implies ascii_char(#[trigger] r[i]) by {
        assert(part(r[i]));
    }
    let l2 = r.map_values(|c: char| ascii_lower(c));
    assert(l2 =~= r) by {
        assert forall|i: int| 0 <= i < r.len() implies #[trigger] l2[i] == r[i] by {
            assert(part(r[i]));
        }
    }
    let m2 = l2.map_values(|c: char| ascii_slug_char(c));
    assert(m2 =~= r) by {
        assert forall|i: int| 0 <= i < r.len() implies #[trigger] m2[i] == r[i] by {
            assert(part(r[i]));
            assert(l2[i] == r[i]);
        }
    }
    if ps.len() == 0 {
        assert(r =~= Seq::<char>::empty());
        let e = seq![Seq::<char>::empty()];
        assert(split_on(r, '_') =~= e);
        assert(e.drop_last() =~= Seq::<Seq<char>>::empty());
        assert(nonempty_pieces(e) == nonempty_pieces(e.drop_last()));
    } else {
        assert forall|k: int, i: int| 0 <= k < ps.len() && 0 <= i < ps[k].len() implies #[trigger] ps[k][i] != '_' by {}
        lemma_split_join(ps, '_');
        lemma_nonempty_fixed(ps);
    }
}

/// Splitting at `_` leaves no non-empty piece exactly when every character is `_`.
proof fn lemma_no_pieces(m: Seq<char>)
    ensures
        nonempty_pieces(split_on(m, '_')).len() == 0 <==> forall|i: int| 0 <= i < m.len() ==> #[trigger] m[i] == '_',
    decreases m.len(),
{
    if m.len() == 0 {
        let e = seq![Seq::<char>::empty()];
        assert(split_on(m, '_') =~= e);
        assert(e.drop_last() =~= Seq::<Seq<char>>::empty());
        assert(nonempty_pieces(e) == nonempty_pieces(e.drop_last()));
    } else {
        let t = m.drop_last();
        let c = m.last();
        lemma_no_pieces(t);
        assert(t.push(c) =~= m);
        lemma_split_on_push(t, c, '_');
        lemma_split_on_nonempty(t, '_');
        let p = split_on(t, '_');
        if c == '_' {
            assert(p.push(Seq::empty()).drop_last() =~= p);
            if forall|i: int| 0 <= i < t.len() ==> #[trigger] t[i] == '_' {
                assert forall|i: int| 0 <= i < m.len() implies #[trigger] m[i] == '_' by {
                    if i < t.len() {
                        assert(m[i] == t[i]);
                    }
                }
            } else {
                let i = choose|i: int| 0 <= i < t.len() && #[trigger] t[i] != '_';
                assert(m[i] == t[i]);
            }
        } else {
            let q = p.update(p.len() - 1, p.last().push(c));
            assert(q.last().len() > 0);
            assert(m[m.len() - 1] != '_');
        }
    }
}

/// The identifier of a name is empty exactly when its lower-cased form has no
/// alphanumeric character other than `_`.
pub proof fn lemma_slug_empty(l: Seq<char>)
    ensures
        slug_of_lower(l).len() == 0 <==> forall|i: int| 0 <= i < l.len() ==> #[trigger] l[i] == '_' || !is_alphanumeric(l[i]),
{
    let mapped = l.map_values(|c: char| slug_char(c));
    lemma_no_pieces(mapped);
    let ps = nonempty_pieces(split_on(mapped, '_'));
    assert forall|i: int| 0 <= i < mapped.len() implies (#[trigger] mapped[i]) == '_' || is_alphanumeric(mapped[i]) by {
        assert(mapped[i] == slug_char(l[i]));
    }
    lemma_split_pieces(mapped);
    lemma_nonempty_pieces(split_on(mapped, '_'));
    lemma_join_pieces(ps);
    assert((forall|i: int| 0 <= i < mapped.len() ==> #[trigger] mapped[i] == '_') <==> (forall|i: int| 0 <= i < l.len() ==> #[trigger] l[i] == '_' || !is_alphanumeric(l[i]))) by {
        assert forall|i: int| 0 <= i < l.len() implies (mapped[i] == '_' <==> (l[i] == '_' || !is_alphanumeric(l[i]))) by {
            assert(mapped[i] == slug_char(l[i]));
        }
        if forall|i: int| 0 <= i < mapped.len() ==> #[trigger] mapped[i] == '_' {
            assert forall|i: int| 0 <= i < l.len() implies #[trigger] l[i] == '_' || !is_alphanumeric(l[i]) by {
                assert(mapped[i] == slug_char(l[i]));
            }
        }
        if forall|i: int| 0 <= i < l.len() ==> #[trigger] l[i] == '_' || !is_alphanumeric(l[i]) {
            assert forall|i: int| 0 <= i < mapped.len() implies #[trigger] mapped[i] == '_' by {
                assert(mapped[i] == slug_char(l[i]));
                assert(l[i] == '_' || !is_alphanumeric(l[i]));
            }
        }
    }
}

/// A piece of an identifier: not empty, and made of alphanumeric characters other than `_`.
pub open spec fn slug_piece(p: Seq<char>) -> bool {
    p.len() > 0 && forall|i: int| 0 <= i < p.len() ==> (#[trigger] p[i]) != '_' && is_alphanumeric(p[i])
}

/// Splitting a sequence of `_` and alphanumeric characters at `_` gives pieces of
/// alphanumeric characters other than `_`.
proof fn lemma_split_pieces(s: Seq<char>)
    requires
        forall|i: int| 0 <= i < s.len() ==> (#[trigger] s[i]) == '_' || is_alphanumeric(s[i]),
    ensures
        forall|k: int, i: int|
            0 <= k < split_on(s, '_').len() && 0 <= i < split_on(s, '_')[k].len() ==> (#[trigger] split_on(s, '_')[k][i]) != '_'
                && is_alphanumeric(split_on(s, '_')[k][i]),
    decreases s.len(),
{
    if s.len() > 0 {
        let t = s.drop_last();
        assert forall|i: int| 0 <= i < t.len() implies (#[trigger] t[i]) == '_' || is_alphanumeric(t[i]) by {
            assert(t[i] == s[i]);
        }
        lemma_split_pieces(t);
        lemma_split_on_nonempty(t, '_');
        assert(s.len() - 1 >= 0);
        assert(s[s.len() - 1] == s.last());
    }
}

/// Keeping the non-empty pieces keeps a property every piece has, and only non-empty
/// pieces are kept.
proof fn lemma_nonempty_pieces(p: Seq<Seq<char>>)
    requires
        forall|k: int, i: int| 0 <= k < p.len() && 0 <= i < p[k].len() ==> (#[trigger] p[k][i]) != '_' && is_alphanumeric(p[k][i]),
    ensures
        forall|k: int| 0 <= k < nonempty_pieces(p).len() ==> slug_piece(#[trigger] nonempty_pieces(p)[k]),
    decreases p.len(),
{
    if p.len() > 0 {
        let q = p.drop_last();
        assert forall|k: int, i: int| 0 <= k < q.len() && 0 <= i < q[k].len() implies (#[trigger] q[k][i]) != '_' && is_alphanumeric(q[k][i]) by {
            assert(q[k] == p[k]);
        }
        lemma_nonempty_pieces(q);
        let l = p.last();
        assert forall|i: int| 0 <= i < l.len() implies (#[trigger] l[i]) != '_' && is_alphanumeric(l[i]) by {
            assert(l == p[p.len() - 1]);
        }
        let r = nonempty_pieces(q);
        if l.len() > 0 {
            assert(slug_piece(l));
            assert(nonempty_pieces(p) == r.push(l));
            assert forall|k: int| 0 <= k < nonempty_pieces(p).len() implies slug_piece(#[trigger] nonempty_pieces(p)[k]) by {
                if k < r.len() {
                    assert(nonempty_pieces(p)[k] == r[k]);
                }
            }
        }
    }
}

/// Joining identifier pieces with `_` gives a sequence that starts and ends with a piece
/// character, whose characters are alphanumeric or `_`, and with no `_` next to another.
proof fn lemma_join_pieces(ps: Seq<Seq<char>>)
    requires
        forall|k: int| 0 <= k < ps.len() ==> slug_piece(#[trigger] ps[k]),
    ensures
        ({
            let r = join_with(ps, "_"@);
            &&& ps.len() > 0 ==> r.len() > 0 && r[0] != '_' && r.last() != '_'
            &&& forall|i: int| 0 <= i < r.len() ==> (#[trigger] r[i]) == '_' || is_alphanumeric(r[i])
            &&& forall|i: int| 0 <= i < r.len() - 1 ==> !(#[trigger] r[i] == '_' && r[i + 1] == '_')
        }),
    decreases ps.len(),
{
    reveal_strlit("_");
    assert("_"@ =~= seq!['_']);
    if ps.len() == 1 {
        assert(slug_piece(ps[0]));
    } else if ps.len() > 1 {
        let q = ps.drop_last();
        assert forall|k: int| 0 <= k < q.len() implies slug_piece(#[trigger] q[k]) by {
            assert(q[k] == ps[k]);
        }
        lemma_join_pieces(q);
        let j = join_with(q, "_"@);
        let w = ps.last();
        assert(slug_piece(ps[ps.len() - 1]));
        let r = join_with(ps, "_"@);
        assert(r == j + seq!['_'] + w);
        assert(r.len() == j.len() + 1 + w.len());
        assert forall|i: int| 0 <= i < r.len() implies (#[trigger] r[i]) == '_' || is_alphanumeric(r[i]) by {
            if i < j.len() {
                assert(r[i] == j[i]);
            } else if i > j.len() {
                assert(r[i] == w[i - j.len() - 1]);
            }
        }
        assert forall|i: int| 0 <= i < r.len() - 1 implies !(#[trigger] r[i] == '_' && r[i + 1] == '_') by {
            if i < j.len() - 1 {
                assert(r[i] == j[i] && r[i + 1] == j[i + 1]);
            } else if i == j.len() - 1 {
                assert(r[i] == j.last());
            } else if i == j.len() {
                assert(r[i + 1] == w[0]);
            } else {
                assert(r[i] == w[i - j.len() - 1]);
            }
        }
        assert(r[0] == j[0]);
        assert(r.last() == w.last());
    }
}

/// The identifier of a server made from its name: lower-cased, each run of characters that
/// are not alphanumeric turned into one `_`, with no `_` at either end.
pub fn slugify(string: &str) -> (res: String)
    ensures
        res@ == slug(string@),
        forall|i: int| 0 <= i < res@.len() ==> (#[trigger] res@[i]) == '_' || is_alphanumeric(res@[i]),
        res@.len() > 0 ==> res@[0] != '_' && res@.last() != '_',
        forall|i: int| 0 <= i < res@.len() - 1 ==> !(#[trigger] res@[i] == '_' && res@[i + 1] == '_'),
        res@.len() == 0 <==> forall|i: int| 0 <= i < lowercase(string@).len() ==> !is_alphanumeric(#[trigger] lowercase(string@)[i]),
        ascii_text(string@) ==> res@ == ascii_slug(string@),
{
    let lower = to_lowercase(string);
    proof {
        if ascii_text(string@) {
            assert forall|i: int| 0 <= i < lower@.len() implies ascii_char(#[trigger] lower@[i]) by {
                assert(lower@[i] == ascii_lower(string@[i]));
                assert(ascii_char(string@[i]));
            }
        }
    }
    slug_of_lowercase(lower.as_str())
}

/// The identifier made from a name already lower-cased (`str::to_lowercase`): each run of
/// characters that are not alphanumeric turned into one `_`, with no `_` at either end.
pub fn slug_of_lowercase(lower: &str) -> (res: String)
    ensures
        res@ == slug_of_lower(lower@),
        forall|i: int| 0 <= i < res@.len() ==> (#[trigger] res@[i]) == '_' || is_alphanumeric(res@[i]),
        res@.len() > 0 ==> res@[0] != '_' && res@.last() != '_',
        forall|i: int| 0 <= i < res@.len() - 1 ==> !(#[trigger] res@[i] == '_' && res@[i + 1] == '_'),
        res@.len() == 0 <==> forall|i: int| 0 <= i < lower@.len() ==> !is_alphanumeric(#[trigger] lower@[i]),
        ascii_text(lower@) ==> res@ == ascii_slug_of_lower(lower@),
{
    proof {
        lemma_slug_empty(lower@);
    }
    let lc = chars_of(lower);
    let ghost mapped_spec = lower@.map_values(|c: char| slug_char(c));
    let n = lc.len();
    let mut mapped: Vec<char> = Vec::new();
    for i in 0..n
        invariant
            n == lc@.len(),
            lc@ == lower@,
            mapped_spec == lower@.map_values(|c: char| slug_char(c)),
            mapped@ == mapped_spec.take(i as int),
            forall|j: int| 0 <= j < i ==> (ascii_char(#[trigger] lc@[j]) ==> is_alphanumeric(lc@[j]) == ascii_alphanumeric(lc@[j])),
    {
        let c = lc[i];
        let m = if char_is_alphanumeric(c) {
            c
        } else {
            '_'
        };
        mapped.push(m);
        assert(mapped_spec.take(i + 1) =~= mapped_spec.take(i as int).push(m));
    }
    assert(mapped_spec.take(n as int) =~= mapped_spec);
    proof {
        // `_` is an ASCII character that is neither a letter nor a digit
        assert(forall|i: int| 0 <= i < lower@.len() ==> (#[trigger] lower@[i] == '_' || !is_alphanumeric(lower@[i])) == !is_alphanumeric(lower@[i])) by {
            assert forall|i: int| 0 <= i < lower@.len() implies (#[trigger] lower@[i] == '_' || !is_alphanumeric(lower@[i])) == !is_alphanumeric(lower@[i]) by {
                assert(lc@[i] == lower@[i]);
            }
        }
        if ascii_text(lower@) {
            let am = lower@.map_values(|c: char| ascii_slug_char(c));
            assert(mapped_spec =~= am) by {
                assert forall|i: int| 0 <= i < lower@.len() implies #[trigger] mapped_spec[i] == am[i] by {
                    assert(lc@[i] == lower@[i]);
                    assert(ascii_char(lower@[i]));
                }
            }
        }
    }
    assert forall|i: int| 0 <= i < mapped@.len() implies (#[trigger] mapped@[i]) == '_' || is_alphanumeric(mapped@[i]) by {
        assert(mapped@[i] == slug_char(lc@[i]));
    }
    proof {
        lemma_split_pieces(mapped@);
        lemma_nonempty_pieces(split_on(mapped@, '_'));
        lemma_join_pieces(nonempty_pieces(split_on(mapped@, '_')));
    }
    let ghost target = join_with(nonempty_pieces(split_on(mapped@, '_')), "_"@);
    let mut pieces: Vec<Vec<char>> = Vec::new();
    let mut cur: Vec<char> = Vec::new();
    let ghost mut done: Seq<Seq<char>> = Seq::empty();
    assert(mapped@.take(0) =~= Seq::<char>::empty());
    assert(split_on(Seq::<char>::empty(), '_') =~= done.push(cur@));
    for i in 0..n
        invariant
            n == mapped@.len(),
            split_on(mapped@.take(i as int), '_') == done.push(cur@),
            pieces@.map_values(|v: Vec<char>| v@) == nonempty_pieces(done),
    {
        let c = mapped[i];
        proof {
            assert(mapped@.take(i + 1) =~= mapped@.take(i as int).push(c));
            lemma_split_on_push(mapped@.take(i as int), c, '_');
            lemma_split_on_nonempty(mapped@.take(i as int), '_');
        }
        if c == '_' {
            let ghost old_done = done;
            let ghost piece = cur@;
            if cur.len() > 0 {
                let w = cur;
                proof {
                    assert(pieces@.push(w).map_values(|v: Vec<char>| v@) =~= pieces@.map_values(|v: Vec<char>| v@).push(w@));
                }
                pieces.push(w);
            }
            cur = Vec::new();
            proof {
                done = old_done.push(piece);
                assert(done.drop_last() =~= old_done);
            }
            assert(split_on(mapped@.take(i + 1), '_') =~= done.push(cur@));
        } else {
            cur.push(c);
            assert(split_on(mapped@.take(i + 1), '_') =~= done.push(cur@));
        }
    }
    assert(mapped@.take(n as int) =~= mapped@);
    let ghost all = done.push(cur@);
    assert(all.drop_last() =~= done);
    if cur.len() > 0 {
        let w = cur;
        proof {
            assert(pieces@.push(w).map_values(|v: Vec<char>| v@) =~= pieces@.map_values(|v: Vec<char>| v@).push(w@));
        }
        pieces.push(w);
    }
    let ghost pv = pieces@.map_values(|v: Vec<char>| v@);
    assert(pv == nonempty_pieces(split_on(mapped@, '_')));
    let mut out: Vec<char> = Vec::new();
    let m = pieces.len();
    proof {
        reveal_strlit("_");
        assert("_"@ =~= seq!['_']);
    }
    for k in 0..m
        invariant
            m == pieces@.len(),
            pv == pieces@.map_values(|v: Vec<char>| v@),
            "_"@ == seq!['_'],
            out@ == join_with(pv.take(k as int), "_"@),
    {
        assert(pv.take(k + 1).drop_last() =~= pv.take(k as int));
        assert(pv.take(k + 1).last() == pieces@[k as int]@);
        if k > 0 {
            out.push('_');
        } else {
            assert(pv.take(0) =~= Seq::<Seq<char>>::empty());
        }
        let ghost before = out@;
        let p = &pieces[k];
        let plen = p.len();
        for j in 0..plen
            invariant
                plen == p@.len(),
                out@ == before + p@.take(j as int),
        {
            out.push(p[j]);
            assert(p@.take(j + 1) =~= p@.take(j as int).push(p@[j as int]));
        }
        assert(p@.take(plen as int) =~= p@);
        proof {
            if k == 0 {
                assert(out@ =~= pv.take(1)[0]);
            } else {
                assert(out@ =~= join_with(pv.take(k as int), "_"@) + "_"@ + pv.take(k + 1).last());
            }
        }
    }
    assert(pv.take(m as int) =~= pv);
    assert(out@ == target);
    string_of(out.as_slice())
}

/// Reads a memory size in megabytes as typed: surrounding white space is ignored, and the
/// rest must be a `u32` in decimal.
pub fn parse_ram(input: &str) -> (res: Option<u32>)
    ensures
        res == parse_u32(trim(input@)),
{
    let t = trim_str(input);
    parse_u32_str(t.as_str())
}

/// Trimming leaves a sequence without white space as it is.
pub proof fn lemma_trim_no_whitespace(s: Seq<char>)
    requires
        forall|i: int| 0 <= i < s.len() ==> !is_whitespace(#[trigger] s[i]),
    ensures
        trim(s) == s,
{
    lemma_leading_ws_unique(s, 0);
    assert(s.skip(0) =~= s);
    lemma_trailing_ws_unique(s, 0);
    assert(s.take(s.len() as int) =~= s);
}

/// Accepting the memory size shown as the default (its decimal form) keeps it.
pub proof fn lemma_ram_round_trip(ram_mb: u32)
    ensures
        parse_u32(trim(decimal(ram_mb as nat))) == Some(ram_mb),
{
    lemma_decimal_digits(ram_mb as nat);
    let d = decimal(ram_mb as nat);
    assert forall|i: int| 0 <= i < d.len() implies !is_whitespace(#[trigger] d[i]) by {
        assert(crate::text::is_digit(d[i]));
    }
    lemma_trim_no_whitespace(d);
    lemma_parse_decimal(ram_mb);
}

/// The Java path a server keeps from what was typed: the trimmed text, or none (use the
/// global one) when nothing but white space was typed.
pub fn java_path_setting(input: &str) -> (res: Option<String>)
    ensures
        trim(input@).len() == 0 ==> res.is_none(),
        trim(input@).len() > 0 ==> opt_view(res) == Some(trim(input@)),
{
    let t = trim_str(input);
    if t.as_str().is_empty() {
        None
    } else {
        Some(t)
    }
}

/// What an entry of the main menu stands for.
#[derive(Debug, Clone, Copy, PartialEq, Eq, Structural)]
pub enum MainChoice {
    /// One of the servers, by position.
    Server(usize),
    AddServer,
    FolderSync,
    GlobalSettings,
    Quit,
}

/// The fields of a server entry other than its software, version and jar are unchanged.
pub open spec fn same_but_software(a: ServerEntry, b: ServerEntry) -> bool {
    &&& a.id == b.id
    &&& a.name == b.name
    &&& a.path == b.path
    &&& a.ram_mb == b.ram_mb
    &&& a.extra_jvm_args == b.extra_jvm_args
    &&& a.java_path == b.java_path
    &&& a.installed == b.installed
}

/// Whether recording `jar_name` changes the jar a server records.
fn jar_differs(current: &Option<String>, jar_name: &str) -> (res: bool)
    ensures
        res == (opt_view(*current) != Some(jar_name@)),
{
    match current {
        Some(j) => !str_eq(j.as_str(), jar_name),
        None => true,
    }
}

/// Records the jar an update brought; returns whether the recorded jar changed.
pub fn apply_update(entry: &mut ServerEntry, jar_name: String) -> (changed: bool)
    ensures
        changed == (opt_view(old(entry).jar_name) != Some(jar_name@)),
        final(entry).jar_name == Some(jar_name),
        final(entry).software == old(entry).software,
        final(entry).mc_version == old(entry).mc_version,
        same_but_software(*final(entry), *old(entry)),
{
    let changed = jar_differs(&entry.jar_name, jar_name.as_str());
    entry.jar_name = Some(jar_name);
    changed
}

/// Switches a server to another software and version with its jar; returns whether
/// anything of the three changed.
pub fn apply_software_change(entry: &mut ServerEntry, software: Software, mc_version: String, jar_name: String) -> (changed: bool)
    ensures
        changed == (software != old(entry).software || mc_version@ != old(entry).mc_version@ || opt_view(old(entry).jar_name) != Some(jar_name@)),
        final(entry).software == software,
        final(entry).mc_version == mc_version,
        final(entry).jar_name == Some(jar_name),
        same_but_software(*final(entry), *old(entry)),
{
    let changed = software != entry.software || !str_eq(mc_version.as_str(), entry.mc_version.as_str())
        || jar_differs(&entry.jar_name, jar_name.as_str());
    entry.software = software;
    entry.mc_version = mc_version;
    entry.jar_name = Some(jar_name);
    changed
}

/// The main menu lists the servers, then "Add server", "Folder Sync", "Global Settings"
/// and "Quit": the choice an index stands for.
pub open spec fn main_choice(selection: int, servers: int) -> MainChoice {
    if selection < servers {
        MainChoice::Server(selection as usize)
    } else if selection == servers {
        MainChoice::AddServer
    } else if selection == servers + 1 {
        MainChoice::FolderSync
    } else if selection == servers + 2 {
        MainChoice::GlobalSettings
    } else {
        MainChoice::Quit
    }
}

/// The choice an index of the main menu stands for, given how many servers it lists.
pub fn main_menu_choice(selection: usize, servers: usize) -> (res: MainChoice)
    ensures
        res == main_choice(selection as int, servers as int),
{
    if selection < servers {
        MainChoice::Server(selection)
    } else if selection - servers == 0 {
        MainChoice::AddServer
    } else if selection - servers == 1 {
        MainChoice::FolderSync
    } else if selection - servers == 2 {
        MainChoice::GlobalSettings
    } else {
        MainChoice::Quit
    }
}

/// What an entry of the folder group menu stands for.
#[derive(Debug, Clone, Copy, PartialEq, Eq, Structural)]
pub enum GroupChoice {
    /// One of the groups, by position.
    Group(usize),
    Create,
    Back,
}

/// The choice an index of the folder group menu stands for: the groups, then "Create a
/// new one", then "Back".
pub fn group_menu_choice(selection: usize, groups: usize) -> (res: GroupChoice)
    ensures
        selection < groups ==> res == GroupChoice::Group(selection),
        selection == groups ==> res == GroupChoice::Create,
        selection > groups ==> res == GroupChoice::Back,
{
    if selection < groups {
        GroupChoice::Group(selection)
    } else if selection == groups {
        GroupChoice::Create
    } else {
        GroupChoice::Back
    }
}

/// Memory given to a new server, in megabytes.
pub const DEFAULT_RAM_MB: u32 = 2048;

/// A new server entry: its identifier made from its name, default memory, no extra Java
/// options, no jar or Java path chosen yet, not installed.
pub fn new_server_entry(name: String, path: String, software: Software, mc_version: String) -> (res: ServerEntry)
    ensures
        res.id@ == slug(name@),
        res.name@ == name@,
        res.path@ == path@,
        res.software == software,
        res.mc_version@ == mc_version@,
        res.ram_mb == DEFAULT_RAM_MB,
        res.extra_jvm_args@.len() == 0,
        res.jar_name.is_none(),
        res.java_path.is_none(),
        !res.installed,
{
    let id = slugify(name.as_str());
    ServerEntry {
        id,
        name,
        path,
        software,
        mc_version,
        ram_mb: DEFAULT_RAM_MB,
        extra_jvm_args: Vec::new(),
        jar_name: None,
        java_path: None,
        installed: false,
    }
}

/// Whether a list of identifiers holds `id`.
pub open spec fn lists_id(ids: Seq<String>, id: Seq<char>) -> bool {
    exists|i: int| 0 <= i < ids.len() && #[trigger] ids[i]@ == id
}

fn has_id(ids: &Vec<String>, id: &str) -> (res: bool)
    ensures
        res == lists_id(ids@, id@),
{
    let n = ids.len();
    for i in 0..n
        invariant
            n == ids@.len(),
            forall|j: int| 0 <= j < i ==> ids@[j]@ != id@,
    {
        if str_eq(ids[i].as_str(), id) {
            return true;
        }
    }
    false
}

/// For each server, whether the given identifiers list it (the preselection when editing
/// a group's servers).
pub fn subscription_flags(servers: &Vec<ServerEntry>, ids: &Vec<String>) -> (res: Vec<bool>)
    ensures
        res@.len() == servers@.len(),
        forall|i: int| 0 <= i < res@.len() ==> (#[trigger] res@[i]) == lists_id(ids@, servers@[i].id@),
{
    let mut res: Vec<bool> = Vec::new();
    let n = servers.len();
    for i in 0..n
        invariant
            n == servers@.len(),
            res@.len() == i,
            forall|k: int| 0 <= k < i ==> (#[trigger] res@[k]) == lists_id(ids@, servers@[k].id@),
    {
        res.push(has_id(ids, servers[i].id.as_str()));
    }
    res
}

/// The identifiers of the servers at the chosen positions, in the order chosen.
pub fn selected_ids(servers: &Vec<ServerEntry>, selection: &Vec<usize>) -> (res: Vec<String>)
    requires
        forall|i: int| 0 <= i < selection@.len() ==> (#[trigger] selection@[i]) < servers@.len(),
    ensures
        res@.len() == selection@.len(),
        forall|i: int| 0 <= i < res@.len() ==> (#[trigger] res@[i])@ == servers@[selection@[i] as int].id@,
{
    let mut res: Vec<String> = Vec::new();
    let n = selection.len();
    for i in 0..n
        invariant
            n == selection@.len(),
            forall|i: int| 0 <= i < selection@.len() ==> (#[trigger] selection@[i]) < servers@.len(),
            res@.len() == i,
            forall|k: int| 0 <= k < i ==> (#[trigger] res@[k])@ == servers@[selection@[k] as int].id@,
    {
        res.push(servers[selection[i]].id.clone());
    }
    res
}

} // verus!
