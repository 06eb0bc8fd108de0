//! Paths as character strings with `/` as separator, and what `std::path` computes on them
//! on Unix. Paths are held as Unicode text: the Windows separator `\`, drive prefixes and
//! names that are not valid Unicode are outside this model.
use vstd::prelude::*;
use crate::text::{
    chars_eq, chars_of, lemma_split_on_append, lemma_split_on_nonempty, lemma_split_on_push,
    owned, push_char, push_str, split_on, string_of, string_views,
};

verus! {

/// `base` joined with `seg` the way `PathBuf::join` does it on Unix: an absolute `seg`
/// replaces `base`, otherwise a separator is inserted unless `base` is empty or already
/// ends with one.
pub open spec fn path_join(base: Seq<char>, seg: Seq<char>) -> Seq<char> {
    if seg.len() > 0 && seg[0] == '/' {
        seg
    } else if base.len() > 0 && base.last() != '/' {
        base + seq!['/'] + seg
    } else {
        base + seg
    }
}

/// Joins a path segment onto a base path (`Path::join`).
pub fn join(base: &str, seg: &str) -> (res: String)
    ensures
        res@ == path_join(base@, seg@),
{
    let b = chars_of(base);
    let s = chars_of(seg);
    if s.len() > 0 && s[0] == '/' {
        return owned(seg);
    }
    let mut res = owned(base);
    if b.len() > 0 && b[b.len() - 1] != '/' {
        push_char(&mut res, '/');
    }
    push_str(&mut res, seg);
    proof {
        if b@.len() > 0 && b@.last() != '/' {
            assert(base@.push('/') =~= base@ + seq!['/']);
        }
    }
    res
}

/// The pieces that name something: all but the empty ones and `.`, in order.
pub open spec fn named_pieces(pieces: Seq<Seq<char>>) -> Seq<Seq<char>>
    decreases pieces.len(),
{
    if pieces.len() == 0 {
        Seq::empty()
    } else {
        let rest = named_pieces(pieces.drop_last());
        let x = pieces.last();
        if x.len() == 0 || x == seq!['.'] {
            rest
        } else {
            rest.push(x)
        }
    }
}

/// The components of a Unix path as `Path::components` yields them, each written as
/// `Component::as_os_str` writes it: `/` for the root, `.` for a leading current directory,
/// `..` for a parent directory, the name otherwise. Repeated separators and inner `.` are
/// dropped.
pub open spec fn components(p: Seq<char>) -> Seq<Seq<char>> {
    let rooted = p.len() > 0 && p[0] == '/';
    let body = if rooted {
        p.drop_first()
    } else {
        p
    };
    let pieces = split_on(body, '/');
    let cur = !rooted && pieces[0] == seq!['.'];
    (if rooted {
        seq![seq!['/']]
    } else {
        Seq::empty()
    }) + (if cur {
        seq![seq!['.']]
    } else {
        Seq::empty()
    }) + named_pieces(pieces)
}

/// `base` is a leading part of `p`, component by component (`Path::starts_with`).
pub open spec fn path_starts_with(p: Seq<char>, base: Seq<char>) -> bool {
    let a = components(p);
    let b = components(base);
    b.len() <= a.len() && a.take(b.len() as int) == b
}

/// The final component of `p` when it is a name (`Path::file_name`).
pub open spec fn file_name(p: Seq<char>) -> Option<Seq<char>> {
    let c = components(p);
    if c.len() > 0 && c.last() != seq!['/'] && c.last() != seq!['.'] && c.last() != seq!['.', '.'] {
        Some(c.last())
    } else {
        None
    }
}

/// The position of the last `.` of a name, when there is a `.` after its first character.
pub open spec fn last_dot(name: Seq<char>) -> Option<int> {
    if exists|i: int| 0 < i < name.len() && name[i] == '.' {
        Some(choose|i: int| 0 < i < name.len() && name[i] == '.' && forall|j: int| i < j < name.len() ==> name[j] != '.')
    } else {
        None
    }
}

/// The extension of the file name of `p`: what follows its last `.`, when that `.` is not
/// its first character (`Path::extension`).
pub open spec fn extension(p: Seq<char>) -> Option<Seq<char>> {
    match file_name(p) {
        Some(name) => match last_dot(name) {
            Some(k) => Some(name.skip(k + 1)),
            None => None,
        },
        None => None,
    }
}

/// The views of a sequence of character vectors.
pub open spec fn views(v: Seq<Vec<char>>) -> Seq<Seq<char>> {
    v.map_values(|x: Vec<char>| x@)
}

/// The components of a path, each as the characters `Component::as_os_str` gives.
pub fn path_components(p: &str) -> (res: Vec<Vec<char>>)
    ensures
        views(res@) == components(p@),
{
    let v = chars_of(p);
    let n = v.len();
    let rooted = n > 0 && v[0] == '/';
    let start: usize = if rooted {
        1
    } else {
        0
    };
    let ghost body = if rooted {
        p@.drop_first()
    } else {
        p@
    };
    assert(body =~= v@.skip(start as int));
    let mut named: Vec<Vec<char>> = Vec::new();
    let mut cur: Vec<char> = Vec::new();
    let mut first_dot = false;
    let mut finished_one = false;
    let ghost mut done: Seq<Seq<char>> = Seq::empty();
    let mut i = start;
    proof {
        assert(body.take(0) =~= Seq::<char>::empty());
        assert(split_on(Seq::<char>::empty(), '/') =~= done.push(cur@));
    }
    while i < n
        invariant
            start <= i <= n,
            n == v@.len(),
            body == v@.skip(start as int),
            split_on(body.take(i - start), '/') == done.push(cur@),
            views(named@) == named_pieces(done),
            finished_one == (done.len() > 0),
            finished_one ==> first_dot == (done[0] == seq!['.']),
        decreases n - i,
    {
        let c = v[i];
        let ghost k = i - start;
        proof {
            assert(body.take(k + 1) =~= body.take(k).push(c));
            lemma_split_on_push(body.take(k), c, '/');
            lemma_split_on_nonempty(body.take(k), '/');
        }
        if c == '/' {
            let ghost old_cur = cur@;
            let ghost old_done = done;
            let is_named = !(cur.len() == 0 || (cur.len() == 1 && cur[0] == '.'));
            proof {
                if old_cur == seq!['.'] {
                    assert(old_cur.len() == 1 && old_cur[0] == '.');
                }
                if cur.len() == 1 && cur[0] == '.' {
                    assert(old_cur =~= seq!['.']);
                }
            }
            if !finished_one {
                first_dot = cur.len() == 1 && cur[0] == '.';
                finished_one = true;
            }
            if is_named {
                proof {
                    assert(views(named@.push(cur)) =~= views(named@).push(old_cur));
                }
                named.push(cur);
            }
            cur = Vec::new();
            proof {
                done = old_done.push(old_cur);
                assert(done.drop_last() =~= old_done);
                assert(done[0] == if old_done.len() > 0 { old_done[0] } else { old_cur });
            }
            assert(split_on(body.take(k + 1), '/') =~= done.push(cur@));
        } else {
            cur.push(c);
            assert(split_on(body.take(k + 1), '/') =~= done.push(cur@));
        }
        i = i + 1;
    }
    assert(body.take(n - start) =~= body);
    let ghost pieces = done.push(cur@);
    let cur_named = !(cur.len() == 0 || (cur.len() == 1 && cur[0] == '.'));
    proof {
        if cur@ == seq!['.'] {
            assert(cur@.len() == 1 && cur@[0] == '.');
        }
        if cur@.len() == 1 && cur@[0] == '.' {
            assert(cur@ =~= seq!['.']);
        }
        assert(pieces.drop_last() =~= done);
        assert(pieces.last() == cur@);
    }
    if !finished_one {
        first_dot = cur.len() == 1 && cur[0] == '.';
        proof {
            if first_dot {
                assert(cur@ =~= seq!['.']);
            }
        }
    }
    assert(pieces[0] == if done.len() > 0 { done[0] } else { cur@ });
    let mut res: Vec<Vec<char>> = Vec::new();
    if rooted {
        let mut r = Vec::new();
        r.push('/');
        res.push(r);
    }
    if !rooted && first_dot {
        let mut d = Vec::new();
        d.push('.');
        res.push(d);
    }
    let ghost front = views(res@);
    let m = named.len();
    for j in 0..m
        invariant
            m == named@.len(),
            views(res@) == front + views(named@).take(j as int),
    {
        let piece = named[j].clone();
        proof {
            assert(views(res@.push(piece)) =~= views(res@).push(piece@));
            assert(views(named@).take(j + 1) =~= views(named@).take(j as int).push(views(named@)[j as int]));
        }
        res.push(piece);
    }
    if cur_named {
        proof {
            assert(views(res@.push(cur)) =~= views(res@).push(cur@));
        }
        res.push(cur);
    }
    assert(views(named@).take(m as int) =~= views(named@));
    proof {
        assert(front =~= (if rooted {
            seq![seq!['/']]
        } else {
            Seq::empty()
        }) + (if !rooted && first_dot {
            seq![seq!['.']]
        } else {
            Seq::empty()
        }));
    }
    assert(split_on(body, '/') == pieces);
    assert(named_pieces(pieces) == if cur_named {
        named_pieces(done).push(cur@)
    } else {
        named_pieces(done)
    });
    assert(views(res@) =~= components(p@));
    res
}

/// Whether `base` is a leading part of `p`, component by component (`Path::starts_with`).
pub fn starts_with_path(p: &str, base: &str) -> (res: bool)
    ensures
        res == path_starts_with(p@, base@),
{
    let a = path_components(p);
    let b = path_components(base);
    if b.len() > a.len() {
        return false;
    }
    let n = b.len();
    for j in 0..n
        invariant
            n == b@.len(),
            n <= a@.len(),
            views(a@) == components(p@),
            views(b@) == components(base@),
            forall|i: int| 0 <= i < j ==> views(a@)[i] == views(b@)[i],
    {
        if !chars_eq(a[j].as_slice(), b[j].as_slice()) {
            assert(views(a@)[j as int] != views(b@)[j as int]);
            assert(views(a@).take(n as int)[j as int] == views(a@)[j as int]);
            return false;
        }
    }
    assert(views(a@).take(n as int) =~= views(b@));
    true
}

/// Whether a component, written as its characters, names a file.
fn is_name_component(c: &Vec<char>) -> (res: bool)
    ensures
        res == (c@ != seq!['/'] && c@ != seq!['.'] && c@ != seq!['.', '.']),
{
    let n = c.len();
    if n == 1 {
        proof {
            if c@ != seq!['/'] && c@ != seq!['.'] {
                assert(c@ != seq!['.', '.']);
            }
        }
        let r = c[0] != '/' && c[0] != '.';
        proof {
            if !r {
                if c[0] == '/' {
                    assert(c@ =~= seq!['/']);
                } else {
                    assert(c@ =~= seq!['.']);
                }
            }
        }
        r
    } else if n == 2 {
        let r = !(c[0] == '.' && c[1] == '.');
        proof {
            if !r {
                assert(c@ =~= seq!['.', '.']);
            }
        }
        r
    } else {
        true
    }
}

/// The characters of the final component of a path when it is a name (`Path::file_name`).
pub fn file_name_chars(p: &str) -> (res: Option<Vec<char>>)
    ensures
        match res {
            Some(v) => file_name(p@) == Some(v@),
            None => file_name(p@).is_none(),
        },
{
    let mut c = path_components(p);
    let n = c.len();
    if n == 0 {
        return None;
    }
    assert(views(c@).last() == c@[n - 1]@);
    if is_name_component(&c[n - 1]) {
        let last = c.pop().unwrap();
        Some(last)
    } else {
        None
    }
}

/// The final component of a path when it is a name (`Path::file_name`).
pub fn file_name_of(p: &str) -> (res: Option<String>)
    ensures
        match res {
            Some(s) => file_name(p@) == Some(s@),
            None => file_name(p@).is_none(),
        },
{
    match file_name_chars(p) {
        Some(v) => Some(string_of(v.as_slice())),
        None => None,
    }
}

/// The extension of the file name of a path (`Path::extension`).
pub fn extension_of(p: &str) -> (res: Option<String>)
    ensures
        match res {
            Some(s) => extension(p@) == Some(s@),
            None => extension(p@).is_none(),
        },
{
    let name = match file_name_chars(p) {
        Some(v) => v,
        None => return None,
    };
    let ghost nm = name@;
    let n = name.len();
    let mut k = n;
    while k > 0 && name[k - 1] != '.'
        invariant
            k <= n,
            n == name@.len(),
            forall|j: int| k <= j < n ==> name@[j] != '.',
        decreases k,
    {
        k = k - 1;
    }
    if k <= 1 {
        proof {
            assert forall|i: int| 0 < i < nm.len() implies nm[i] != '.' by {
                if nm[i] == '.' {
                    assert(i < k);
                }
            }
        }
        assert(last_dot(nm).is_none());
        return None;
    }
    let dot = k - 1;
    proof {
        assert(0 < dot < nm.len() && nm[dot as int] == '.');
        let c = choose|i: int| 0 < i < nm.len() && nm[i] == '.' && forall|j: int| i < j < nm.len() ==> nm[j] != '.';
        assert(0 < c < nm.len() && nm[c] == '.' && forall|j: int| c < j < nm.len() ==> nm[j] != '.');
        if c < dot {
            assert(nm[dot as int] != '.');
        }
        if c > dot {
            assert(nm[c] != '.');
        }
        assert(last_dot(nm) == Some(dot as int));
    }
    let mut ext: Vec<char> = Vec::new();
    let mut i = k;
    while i < n
        invariant
            k <= i <= n,
            n == name@.len(),
            ext@ == name@.subrange(k as int, i as int),
        decreases n - i,
    {
        ext.push(name[i]);
        assert(name@.subrange(k as int, i as int).push(name@[i as int]) =~= name@.subrange(k as int, i + 1));
        i = i + 1;
    }
    assert(ext@ =~= nm.skip(k as int));
    Some(string_of(ext.as_slice()))
}

/// `base` with the names joined on one after the other.
pub open spec fn path_join_all(base: Seq<char>, names: Seq<Seq<char>>) -> Seq<char>
    decreases names.len(),
{
    if names.len() == 0 {
        base
    } else {
        path_join(path_join_all(base, names.drop_last()), names.last())
    }
}

/// Joins names onto a base path one after the other.
pub fn join_all(base: &str, names: &Vec<String>) -> (res: String)
    ensures
        res@ == path_join_all(base@, string_views(names@)),
{
    let mut res = owned(base);
    let n = names.len();
    let ghost v = string_views(names@);
    for i in 0..n
        invariant
            n == names@.len(),
            v == string_views(names@),
            res@ == path_join_all(base@, v.take(i as int)),
    {
        assert(v.take(i + 1).drop_last() =~= v.take(i as int));
        assert(v.take(i + 1).last() == names@[i as int]@);
        res = join(res.as_str(), names[i].as_str());
    }
    assert(v.take(n as int) =~= v);
    res
}

/// A name: it holds no separator.
pub open spec fn plain_name(n: Seq<char>) -> bool {
    forall|i: int| 0 <= i < n.len() ==> #[trigger] n[i] != '/'
}

/// `a` starts with `b`.
pub open spec fn is_prefix<A>(b: Seq<A>, a: Seq<A>) -> bool {
    b.len() <= a.len() && a.take(b.len() as int) == b
}

proof fn lemma_named_pieces_push(p: Seq<Seq<char>>, x: Seq<char>)
    ensures
        is_prefix(named_pieces(p), named_pieces(p.push(x))),
{
    assert(p.push(x).drop_last() =~= p);
    let r = named_pieces(p);
    assert(r.push(x).take(r.len() as int) =~= r);
    assert(r.take(r.len() as int) =~= r);
}

/// Joining a plain name onto a path keeps the path's components in front.
pub proof fn lemma_join_keeps_components(b: Seq<char>, n: Seq<char>)
    requires
        plain_name(n),
    ensures
        is_prefix(components(b), components(path_join(b, n))),
{
    let j = path_join(b, n);
    if n.len() > 0 && n[0] == '/' {
        assert(n[0] != '/');
    }
    if b.len() == 0 {
        assert(components(b).len() == 0) by {
            let e = Seq::<char>::empty();
            let s = seq![e];
            assert(split_on(b, '/') =~= s);
            assert(s.drop_last() =~= Seq::<Seq<char>>::empty());
            assert(named_pieces(Seq::<Seq<char>>::empty()) == Seq::<Seq<char>>::empty());
            assert(s.last() == e);
            assert(named_pieces(s) == named_pieces(s.drop_last()));
            assert(s[0] != seq!['.']) by {
                assert(seq!['.'].len() == 1);
            }
        }
        assert(components(j).take(0) =~= components(b));
    } else {
        let rooted = b[0] == '/';
        let body = if rooted { b.drop_first() } else { b };
        let p = split_on(body, '/');
        lemma_split_on_nonempty(body, '/');
        assert(j[0] == b[0]);
        let jbody = if rooted { j.drop_first() } else { j };
        let q = split_on(jbody, '/');
        if b.last() != '/' {
            assert(j == b + seq!['/'] + n);
            assert(jbody =~= (body + seq!['/']) + n);
            lemma_split_on_push(body, '/', '/');
            assert(body.push('/') =~= body + seq!['/']);
            lemma_split_on_append(body + seq!['/'], n, '/');
            let p1 = split_on(body + seq!['/'], '/');
            assert(p1 == p.push(Seq::empty()));
            assert(q == p1.update(p1.len() - 1, p1.last() + n));
            assert(Seq::<char>::empty() + n =~= n);
            assert(q =~= p.push(n));
            assert(q[0] == p[0]);
            lemma_named_pieces_push(p, n);
        } else {
            assert(j == b + n);
            assert(jbody =~= body + n);
            lemma_split_on_append(body, n, '/');
            assert(q == p.update(p.len() - 1, p.last() + n));
            // the body ends with a separator (or is empty), so its last piece is empty
            assert(p.last().len() == 0) by {
                if body.len() > 0 {
                    assert(body.last() == b.last());
                    assert(body.drop_last().push('/') =~= body);
                    lemma_split_on_push(body.drop_last(), '/', '/');
                } else {
                    assert(p =~= seq![Seq::<char>::empty()]);
                }
            }
            assert(p.last() + n =~= n);
            assert(q =~= p.drop_last().push(n));
            assert(p.drop_last().push(p.last()) =~= p);
            assert(named_pieces(p) == named_pieces(p.drop_last()));
            lemma_named_pieces_push(p.drop_last(), n);
            if !rooted {
                assert(p.len() >= 2) by {
                    if p.len() < 2 {
                        assert(body.len() > 0);
                        assert(body.drop_last().push('/') =~= body);
                        lemma_split_on_push(body.drop_last(), '/', '/');
                        lemma_split_on_nonempty(body.drop_last(), '/');
                    }
                }
                assert(q[0] == p[0]);
            }
        }
        let front = (if rooted {
            seq![seq!['/']]
        } else {
            Seq::empty()
        }) + (if !rooted && p[0] == seq!['.'] {
            seq![seq!['.']]
        } else {
            Seq::empty()
        });
        let rb = named_pieces(p);
        let rj = named_pieces(q);
        assert(components(b) == front + rb);
        assert(components(j) == front + rj);
        assert(rj.take(rb.len() as int) == rb);
        assert((front + rj).take((front + rb).len() as int) =~= front + rb) by {
            assert forall|i: int| 0 <= i < (front + rb).len() implies (front + rj).take((front + rb).len() as int)[i] == (front + rb)[i] by {
                if i >= front.len() {
                    assert(rj.take(rb.len() as int)[i - front.len()] == rb[i - front.len()]);
                }
            }
        }
    }
}

/// Joining plain names onto a path, one after the other, keeps it as a leading part.
pub proof fn lemma_join_all_under(base: Seq<char>, names: Seq<Seq<char>>)
    requires
        forall|k: int| 0 <= k < names.len() ==> plain_name(#[trigger] names[k]),
    ensures
        path_starts_with(path_join_all(base, names), base),
    decreases names.len(),
{
    if names.len() == 0 {
        let c = components(base);
        assert(c.take(c.len() as int) =~= c);
    } else {
        let init = names.drop_last();
        assert forall|k: int| 0 <= k < init.len() implies plain_name(#[trigger] init[k]) by {
            assert(init[k] == names[k]);
        }
        lemma_join_all_under(base, init);
        let m = path_join_all(base, init);
        assert(plain_name(names[names.len() - 1]));
        lemma_join_keeps_components(m, names.last());
        let a = components(base);
        let bm = components(m);
        let c = components(path_join(m, names.last()));
        assert(c.take(a.len() as int) =~= a) by {
            assert forall|i: int| 0 <= i < a.len() implies c.take(a.len() as int)[i] == a[i] by {
                assert(bm.take(a.len() as int)[i] == a[i]);
                assert(c.take(bm.len() as int)[i] == bm[i]);
            }
        }
    }
}

} // verus!
