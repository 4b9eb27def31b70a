use vstd::prelude::*;

verus! {

/// Relies on `str::chars`: the characters of the string, in order.
#[verifier::external_body]
pub(crate) fn chars_of(s: &str) -> (r: Vec<char>)
    ensures
        r@ == s@,
{
    s.chars().collect()
}

/// Relies on collecting characters into a `String`: the string of exactly those characters.
#[verifier::external_body]
pub(crate) fn string_of(cs: &Vec<char>) -> (r: String)
    ensures
        r@ == cs@,
{
    cs.iter().collect()
}

pub open spec fn is_dot(seg: Seq<char>) -> bool {
    seg.len() == 1 && seg[0] == '.'
}

pub open spec fn is_dot_dot(seg: Seq<char>) -> bool {
    seg.len() == 2 && seg[0] == '.' && seg[1] == '.'
}

/// The pieces between the separators `/` of a path (empty pieces included).
pub open spec fn pieces(p: Seq<char>) -> Seq<Seq<char>>
    decreases p.len(),
{
    if p.len() == 0 {
        seq![Seq::<char>::empty()]
    } else if p.last() == '/' {
        pieces(p.drop_last()).push(Seq::empty())
    } else {
        let ps = pieces(p.drop_last());
        ps.update(ps.len() - 1, ps.last().push(p.last()))
    }
}

proof fn lemma_pieces_nonempty(p: Seq<char>)
    ensures
        pieces(p).len() >= 1,
    decreases p.len(),
{
    if p.len() > 0 {
        lemma_pieces_nonempty(p.drop_last());
    }
}

/// The stack of kept segments after one more piece: empty pieces and `.` are dropped;
/// `..` removes a preceding normal segment, is dropped right below the root, and is kept
/// where nothing precedes it or only other `..`.
pub open spec fn push_piece(st: Seq<Seq<char>>, seg: Seq<char>, absolute: bool) -> Seq<Seq<char>> {
    if seg.len() == 0 || is_dot(seg) {
        st
    } else if is_dot_dot(seg) {
        if st.len() == 0 {
            if absolute { st } else { st.push(seg) }
        } else if is_dot_dot(st.last()) {
            st.push(seg)
        } else {
            st.drop_last()
        }
    } else {
        st.push(seg)
    }
}

pub open spec fn stack_of(ps: Seq<Seq<char>>, absolute: bool) -> Seq<Seq<char>>
    decreases ps.len(),
{
    if ps.len() == 0 {
        Seq::empty()
    } else {
        push_piece(stack_of(ps.drop_last(), absolute), ps.last(), absolute)
    }
}

pub open spec fn is_absolute(p: Seq<char>) -> bool {
    p.len() > 0 && p[0] == '/'
}

/// The segments joined with `/`.
pub open spec fn join(st: Seq<Seq<char>>) -> Seq<char>
    decreases st.len(),
{
    if st.len() == 0 {
        Seq::empty()
    } else if st.len() == 1 {
        st[0]
    } else {
        join(st.drop_last()) + seq!['/'] + st.last()
    }
}

/// A path written from its root marker and its segments; nothing at all is `.`.
pub open spec fn render(absolute: bool, st: Seq<Seq<char>>) -> Seq<char> {
    if absolute {
        seq!['/'] + join(st)
    } else if st.len() == 0 {
        seq!['.']
    } else {
        join(st)
    }
}

/// The lexically normalized form of a path.
pub open spec fn normalized(p: Seq<char>) -> Seq<char> {
    render(is_absolute(p), stack_of(pieces(p), is_absolute(p)))
}

fn is_dot_vec(seg: &Vec<char>) -> (r: bool)
    ensures
        r == is_dot(seg@),
{
    seg.len() == 1 && seg[0] == '.'
}

fn is_dot_dot_vec(seg: &Vec<char>) -> (r: bool)
    ensures
        r == is_dot_dot(seg@),
{
    seg.len() == 2 && seg[0] == '.' && seg[1] == '.'
}

pub open spec fn views(st: Seq<Vec<char>>) -> Seq<Seq<char>> {
    st.map_values(|v: Vec<char>| v@)
}

fn push_piece_exec(st: &mut Vec<Vec<char>>, seg: Vec<char>, absolute: bool)
    ensures
        views(final(st)@) == push_piece(views(old(st)@), seg@, absolute),
{
    if seg.len() == 0 || is_dot_vec(&seg) {
        return;
    }
    if is_dot_dot_vec(&seg) {
        let n = st.len();
        if n == 0 {
            if !absolute {
                st.push(seg);
                assert(views(st@) =~= views(old(st)@).push(seg@));
            }
        } else if is_dot_dot_vec(&st[n - 1]) {
            st.push(seg);
            assert(views(st@) =~= views(old(st)@).push(seg@));
        } else {
            st.pop();
            assert(views(st@) =~= views(old(st)@).drop_last());
        }
    } else {
        st.push(seg);
        assert(views(st@) =~= views(old(st)@).push(seg@));
    }
}

fn append_chars(out: &mut Vec<char>, s: &Vec<char>)
    ensures
        final(out)@ == old(out)@ + s@,
{
    let mut i: usize = 0;
    while i < s.len()
        invariant
            i <= s@.len(),
            out@ == old(out)@ + s@.subrange(0, i as int),
        decreases s.len() - i,
    {
        out.push(s[i]);
        assert(s@.subrange(0, i + 1) =~= s@.subrange(0, i as int).push(s@[i as int]));
        i = i + 1;
    }
    assert(s@.subrange(0, i as int) =~= s@);
}

/// Normalizes a path lexically, without touching the file system: `.` segments and
/// repeated separators go, `..` cancels a preceding normal segment, a leading `..` (or one
/// after other leading `..`) stays, a `..` right below the root goes, and a path that
/// normalizes to nothing becomes `.`.
pub fn normalize_chars(p: &Vec<char>) -> (r: Vec<char>)
    ensures
        r@ == normalized(p@),
{
    let absolute = p.len() > 0 && p[0] == '/';
    let mut st: Vec<Vec<char>> = Vec::new();
    let mut cur: Vec<char> = Vec::new();
    let mut i: usize = 0;
    while i < p.len()
        invariant
            i <= p@.len(),
            absolute == is_absolute(p@),
            pieces(p@.subrange(0, i as int)).last() == cur@,
            views(st@) == stack_of(pieces(p@.subrange(0, i as int)).drop_last(), absolute),
        decreases p.len() - i,
    {
        let ghost pre = p@.subrange(0, i as int);
        let ghost post = p@.subrange(0, i + 1);
        assert(post.drop_last() =~= pre);
        assert(post.last() == p@[i as int]);
        proof { lemma_pieces_nonempty(pre); }
        if p[i] == '/' {
            let seg = cur;
            cur = Vec::new();
            push_piece_exec(&mut st, seg, absolute);
            assert(pieces(post).drop_last() =~= pieces(pre));
            assert(pieces(pre).drop_last().push(pieces(pre).last()) =~= pieces(pre));
        } else {
            cur.push(p[i]);
            assert(pieces(post).drop_last() =~= pieces(pre).drop_last());
        }
        i = i + 1;
    }
    assert(p@.subrange(0, i as int) =~= p@);
    let ghost ps = pieces(p@);
    proof { lemma_pieces_nonempty(p@); }
    assert(ps.drop_last().push(ps.last()) =~= ps);
    push_piece_exec(&mut st, cur, absolute);
    let mut out: Vec<char> = Vec::new();
    if absolute {
        out.push('/');
    } else if st.len() == 0 {
        out.push('.');
        assert(out@ =~= seq!['.']);
        return out;
    }
    let ghost head = out@;
    let mut j: usize = 0;
    while j < st.len()
        invariant
            j <= st@.len(),
            out@ == head + join(views(st@).subrange(0, j as int)),
        decreases st.len() - j,
    {
        let ghost vs = views(st@);
        assert(vs.subrange(0, j + 1).drop_last() =~= vs.subrange(0, j as int));
        assert(vs[j as int] == st@[j as int]@);
        if j > 0 {
            out.push('/');
        }
        append_chars(&mut out, &st[j]);
        proof {
            if j == 0 {
                assert(join(vs.subrange(0, 1)) == vs[0]);
                assert(join(vs.subrange(0, 0)) =~= Seq::<char>::empty());
                assert(out@ =~= head + vs[0]);
            } else {
                assert(out@ =~= head + join(vs.subrange(0, j as int)) + seq!['/'] + vs[j as int]);
            }
        }
        j = j + 1;
    }
    assert(views(st@).subrange(0, j as int) =~= views(st@));
    proof {
        if !absolute {
            assert(head =~= Seq::<char>::empty());
            assert(out@ =~= join(views(st@)));
        } else {
            assert(head =~= seq!['/']);
        }
    }
    out
}

/// Normalizes a path lexically (see `normalize_chars`).
pub fn normalize(p: &str) -> (r: String)
    ensures
        r@ == normalized(p@),
{
    let cs = chars_of(p);
    let n = normalize_chars(&cs);
    string_of(&n)
}

pub open spec fn no_slash(seg: Seq<char>) -> bool {
    forall|i: int| 0 <= i < seg.len() ==> #[trigger] seg[i] != '/'
}

/// A stack as normalization leaves it: plain non-empty segments, any `..` before every
/// other segment, and no `..` at all below the root.
pub open spec fn normal_stack(st: Seq<Seq<char>>, absolute: bool) -> bool {
    &&& forall|i: int| 0 <= i < st.len() ==> #[trigger] st[i].len() > 0 && !is_dot(st[i]) && no_slash(st[i])
    &&& forall|i: int, j: int| 0 <= i < j < st.len() && is_dot_dot(#[trigger] st[j]) ==> is_dot_dot(#[trigger] st[i])
    &&& absolute ==> forall|i: int| 0 <= i < st.len() ==> !is_dot_dot(#[trigger] st[i])
}

proof fn lemma_pieces_no_slash(p: Seq<char>)
    ensures
        forall|i: int| 0 <= i < pieces(p).len() ==> no_slash(#[trigger] pieces(p)[i]),
    decreases p.len(),
{
    lemma_pieces_nonempty(p);
    if p.len() > 0 {
        lemma_pieces_no_slash(p.drop_last());
        lemma_pieces_nonempty(p.drop_last());
        let ps = pieces(p.drop_last());
        if p.last() != '/' {
            assert forall|i: int| 0 <= i < pieces(p).len() implies no_slash(#[trigger] pieces(p)[i]) by {
                if i == ps.len() - 1 {
                    let seg = ps.last().push(p.last());
                    assert(no_slash(ps[i]));
                    assert forall|k: int| 0 <= k < seg.len() implies #[trigger] seg[k] != '/' by {
                        if k < seg.len() - 1 {
                            assert(seg[k] == ps[i][k]);
                        }
                    }
                }
            }
        }
    }
}

proof fn lemma_stack_normal(ps: Seq<Seq<char>>, absolute: bool)
    requires
        forall|i: int| 0 <= i < ps.len() ==> no_slash(#[trigger] ps[i]),
    ensures
        normal_stack(stack_of(ps, absolute), absolute),
    decreases ps.len(),
{
    if ps.len() > 0 {
        let pre = ps.drop_last();
        assert forall|i: int| 0 <= i < pre.len() implies no_slash(#[trigger] pre[i]) by {
            assert(pre[i] == ps[i]);
        }
        lemma_stack_normal(pre, absolute);
        let st = stack_of(pre, absolute);
        let seg = ps.last();
        assert(no_slash(ps[ps.len() - 1]));
        let nx = push_piece(st, seg, absolute);
        if seg.len() == 0 || is_dot(seg) {
        } else if is_dot_dot(seg) {
            if st.len() == 0 {
            } else if is_dot_dot(st.last()) {
                assert forall|i: int| 0 <= i < nx.len() implies is_dot_dot(#[trigger] nx[i]) by {
                    if i < st.len() - 1 {
                        assert(is_dot_dot(st[st.len() - 1]));
                    }
                }
            } else {
                assert forall|i: int, j: int| 0 <= i < j < nx.len() && is_dot_dot(#[trigger] nx[j]) implies is_dot_dot(#[trigger] nx[i]) by {
                    assert(nx[i] == st[i] && nx[j] == st[j]);
                }
            }
        } else {
            assert forall|i: int, j: int| 0 <= i < j < nx.len() && is_dot_dot(#[trigger] nx[j]) implies is_dot_dot(#[trigger] nx[i]) by {
                assert(nx[i] == st[i]);
            }
        }
    }
}

proof fn lemma_normal_refolds(st: Seq<Seq<char>>, absolute: bool)
    requires
        normal_stack(st, absolute),
    ensures
        stack_of(st, absolute) == st,
    decreases st.len(),
{
    if st.len() > 0 {
        let pre = st.drop_last();
        assert(normal_stack(pre, absolute)) by {
            assert forall|i: int, j: int| 0 <= i < j < pre.len() && is_dot_dot(#[trigger] pre[j]) implies is_dot_dot(#[trigger] pre[i]) by {
                assert(pre[i] == st[i] && pre[j] == st[j]);
            }
        }
        lemma_normal_refolds(pre, absolute);
        let last = st.last();
        assert(last.len() > 0 && !is_dot(last));
        if is_dot_dot(last) {
            if pre.len() > 0 {
                assert(is_dot_dot(st[pre.len() - 1]));
            }
        }
        assert(pre.push(last) =~= st);
    }
}

proof fn lemma_stack_single(x: Seq<char>, absolute: bool)
    ensures
        stack_of(seq![x], absolute) == push_piece(Seq::empty(), x, absolute),
{
    assert(seq![x].drop_last() =~= Seq::<Seq<char>>::empty());
    assert(seq![x].last() == x);
    assert(stack_of(Seq::<Seq<char>>::empty(), absolute) == Seq::<Seq<char>>::empty());
}

proof fn lemma_skip_first(x: Seq<char>, ps: Seq<Seq<char>>, absolute: bool)
    requires
        x.len() == 0 || is_dot(x),
    ensures
        stack_of(seq![x] + ps, absolute) == stack_of(ps, absolute),
    decreases ps.len(),
{
    let all = seq![x] + ps;
    if ps.len() == 0 {
        assert(all =~= seq![x]);
        lemma_stack_single(x, absolute);
        assert(stack_of(ps, absolute) == Seq::<Seq<char>>::empty());
    } else {
        lemma_skip_first(x, ps.drop_last(), absolute);
        assert(all.drop_last() =~= seq![x] + ps.drop_last());
        assert(all.last() == ps.last());
    }
}

proof fn lemma_pieces_plain(seg: Seq<char>)
    requires
        no_slash(seg),
    ensures
        pieces(seg) == seq![seg],
    decreases seg.len(),
{
    if seg.len() == 0 {
        assert(seg =~= Seq::<char>::empty());
        assert(pieces(seg) =~= seq![seg]);
    } else {
        let pre = seg.drop_last();
        assert(no_slash(pre)) by {
            assert forall|i: int| 0 <= i < pre.len() implies #[trigger] pre[i] != '/' by {
                assert(pre[i] == seg[i]);
            }
        }
        lemma_pieces_plain(pre);
        assert(seg[seg.len() - 1] != '/');
        assert(pieces(seg) =~= seq![pre.push(seg.last())]);
        assert(pre.push(seg.last()) =~= seg);
    }
}

proof fn lemma_pieces_split(x: Seq<char>, y: Seq<char>)
    ensures
        pieces(x + seq!['/'] + y) == pieces(x) + pieces(y),
    decreases y.len(),
{
    let xs = x + seq!['/'];
    lemma_pieces_nonempty(x);
    if y.len() == 0 {
        assert(xs + y =~= xs);
        assert(xs.drop_last() =~= x);
        assert(pieces(x) + pieces(y) =~= pieces(x).push(Seq::empty()));
    } else {
        let yp = y.drop_last();
        lemma_pieces_split(x, yp);
        lemma_pieces_nonempty(yp);
        assert((xs + y).drop_last() =~= xs + yp);
        assert((xs + y).last() == y.last());
        if y.last() == '/' {
            assert(pieces(xs + y) =~= pieces(x) + pieces(y));
        } else {
            assert(pieces(xs + y) =~= pieces(x) + pieces(y));
        }
    }
}

proof fn lemma_join_split(st: Seq<Seq<char>>)
    requires
        st.len() > 0,
        forall|i: int| 0 <= i < st.len() ==> no_slash(#[trigger] st[i]),
    ensures
        pieces(join(st)) == st,
    decreases st.len(),
{
    if st.len() == 1 {
        assert(no_slash(st[0]));
        lemma_pieces_plain(st[0]);
        assert(seq![st[0]] =~= st);
    } else {
        let pre = st.drop_last();
        assert forall|i: int| 0 <= i < pre.len() implies no_slash(#[trigger] pre[i]) by {
            assert(pre[i] == st[i]);
        }
        lemma_join_split(pre);
        lemma_pieces_split(join(pre), st.last());
        assert(no_slash(st[st.len() - 1]));
        lemma_pieces_plain(st.last());
        assert(pre + seq![st.last()] =~= st);
    }
}

proof fn lemma_join_starts(st: Seq<Seq<char>>)
    requires
        st.len() > 0,
        st[0].len() > 0,
    ensures
        join(st).len() > 0 && join(st)[0] == st[0][0],
    decreases st.len(),
{
    if st.len() > 1 {
        let pre = st.drop_last();
        assert(pre[0] == st[0]);
        lemma_join_starts(pre);
    }
}

/// Normalizing is idempotent: a path that is already normalized comes back unchanged.
pub proof fn lemma_normalize_idempotent(p: Seq<char>)
    ensures
        normalized(normalized(p)) == normalized(p),
{
    let a = is_absolute(p);
    let ps = pieces(p);
    lemma_pieces_no_slash(p);
    lemma_stack_normal(ps, a);
    let st = stack_of(ps, a);
    let q = normalized(p);
    assert(forall|i: int| 0 <= i < st.len() ==> no_slash(#[trigger] st[i]));
    if a {
        let e = Seq::<char>::empty();
        assert(q =~= e + seq!['/'] + join(st));
        lemma_pieces_split(e, join(st));
        assert(pieces(e) =~= seq![e]);
        assert(is_absolute(q));
        if st.len() == 0 {
            assert(join(st) =~= e);
            assert(pieces(q) =~= seq![e] + seq![e]);
            lemma_skip_first(e, seq![e], true);
            lemma_stack_single(e, true);
        } else {
            lemma_join_split(st);
            lemma_skip_first(e, st, true);
            lemma_normal_refolds(st, true);
        }
    } else if st.len() == 0 {
        let dot = seq!['.'];
        assert(q == dot);
        assert(no_slash(dot));
        lemma_pieces_plain(dot);
        lemma_stack_single(dot, false);
        assert(stack_of(pieces(q), is_absolute(q)) =~= Seq::<Seq<char>>::empty());
    } else {
        assert(st[0].len() > 0 && no_slash(st[0]));
        lemma_join_starts(st);
        assert(!is_absolute(q));
        lemma_join_split(st);
        lemma_normal_refolds(st, false);
    }
}

} // verus!
