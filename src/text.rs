//! Text helpers: comma-separated lists and the ordering of package names.
use vstd::prelude::*;

verus! {

/// The pieces joined with commas between them.
pub open spec fn joined(pieces: Seq<Seq<char>>) -> Seq<char>
    decreases pieces.len(),
{
    if pieces.len() == 0 {
        Seq::empty()
    } else if pieces.len() == 1 {
        pieces[0]
    } else {
        joined(pieces.drop_last()) + seq![','] + pieces.last()
    }
}

/// The views of a vector of strings.
pub open spec fn views(v: Seq<String>) -> Seq<Seq<char>> {
    v.map_values(|x: String| x@)
}

/// Splits the text at every comma; no text gives no items.
pub fn comma_separated_list(s: &Option<String>) -> (r: Vec<String>)
    ensures
        s is None ==> r@.len() == 0,
        s is Some ==> {
            &&& r@.len() >= 1
            &&& joined(views(r@)) == s->0@
            &&& forall|i: int| 0 <= i < r@.len() ==> !(#[trigger] r@[i])@.contains(',')
        },
{
    let mut r: Vec<String> = Vec::new();
    match s {
        None => r,
        Some(s) => {
            let n = s.unicode_len();
            let mut start: usize = 0;
            let mut i: usize = 0;
            while i < n
                invariant
                    n == s@.len(),
                    start <= i <= n,
                    r@.len() == 0 ==> start == 0,
                    r@.len() > 0 ==> joined(views(r@)) + seq![','] == s@.subrange(0, start as int),
                    forall|k: int| start <= k < i ==> s@[k] != ',',
                    forall|k: int| 0 <= k < r@.len() ==> !(#[trigger] r@[k])@.contains(','),
                decreases n - i,
            {
                if s.get_char(i) == ',' {
                    let piece = String::from_str(s.substring_char(start, i));
                    proof {
                        let v = views(r@);
                        assert(views(r@.push(piece)).drop_last() =~= v);
                        assert(views(r@.push(piece)).last() == piece@);
                        assert(piece@ =~= s@.subrange(start as int, i as int));
                        if r@.len() > 0 {
                            assert(joined(views(r@.push(piece))) == joined(v) + seq![','] + piece@);
                        } else {
                            assert(views(r@.push(piece)) =~= seq![piece@]);
                        }
                        assert(!piece@.contains(',')) by {
                            if piece@.contains(',') {
                                let k = choose|k: int| 0 <= k < piece@.len() && piece@[k] == ',';
                                assert(s@[start + k] == ',');
                            }
                        }
                    }
                    r.push(piece);
                    proof {
                        assert(joined(views(r@)) + seq![','] =~= s@.subrange(0, i + 1));
                    }
                    start = i + 1;
                }
                i = i + 1;
            }
            let piece = String::from_str(s.substring_char(start, n));
            proof {
                let v = views(r@);
                assert(views(r@.push(piece)).drop_last() =~= v);
                assert(piece@ =~= s@.subrange(start as int, n as int));
                if r@.len() > 0 {
                    assert(joined(views(r@.push(piece))) == joined(v) + seq![','] + piece@);
                    assert(joined(views(r@.push(piece))) =~= s@);
                } else {
                    assert(views(r@.push(piece)) =~= seq![piece@]);
                    assert(piece@ =~= s@);
                }
                assert(!piece@.contains(',')) by {
                    if piece@.contains(',') {
                        let k = choose|k: int| 0 <= k < piece@.len() && piece@[k] == ',';
                        assert(s@[start + k] == ',');
                    }
                }
            }
            r.push(piece);
            r
        },
    }
}

/// Lexicographic order of names by character code, the order of `str`.
pub open spec fn name_lt(a: Seq<char>, b: Seq<char>) -> bool
    decreases a.len(),
{
    if a.len() == 0 {
        b.len() > 0
    } else if b.len() == 0 {
        false
    } else if a[0] != b[0] {
        a[0] < b[0]
    } else {
        name_lt(a.drop_first(), b.drop_first())
    }
}

/// No name orders before itself.
pub proof fn lemma_name_lt_irreflexive(a: Seq<char>)
    ensures
        !name_lt(a, a),
    decreases a.len(),
{
    if a.len() > 0 {
        lemma_name_lt_irreflexive(a.drop_first());
    }
}

/// Of two different names, one orders before the other.
pub proof fn lemma_name_lt_total(a: Seq<char>, b: Seq<char>)
    ensures
        a != b ==> name_lt(a, b) || name_lt(b, a),
    decreases a.len(),
{
    if a.len() > 0 && b.len() > 0 {
        lemma_name_lt_total(a.drop_first(), b.drop_first());
        if a[0] == b[0] && a.drop_first() == b.drop_first() {
            assert(a =~= seq![a[0]] + a.drop_first());
            assert(b =~= seq![b[0]] + b.drop_first());
        }
    } else if a.len() == 0 && b.len() == 0 {
        assert(a =~= b);
    }
}

/// The order of names is transitive.
pub proof fn lemma_name_lt_transitive(a: Seq<char>, b: Seq<char>, c: Seq<char>)
    requires
        name_lt(a, b),
        name_lt(b, c),
    ensures
        name_lt(a, c),
    decreases a.len(),
{
    if a.len() > 0 && b.len() > 0 && c.len() > 0 && a[0] == b[0] && b[0] == c[0] {
        lemma_name_lt_transitive(a.drop_first(), b.drop_first(), c.drop_first());
    }
}

/// Whether `a` orders before `b`.
pub fn str_lt(a: &str, b: &str) -> (r: bool)
    ensures
        r == name_lt(a@, b@),
{
    let na = a.unicode_len();
    let nb = b.unicode_len();
    let mut i: usize = 0;
    proof {
        assert(a@.skip(0) =~= a@);
        assert(b@.skip(0) =~= b@);
    }
    while i < na && i < nb
        invariant
            na == a@.len(),
            nb == b@.len(),
            i <= na,
            i <= nb,
            name_lt(a@, b@) == name_lt(a@.skip(i as int), b@.skip(i as int)),
        decreases na - i,
    {
        let ca = a.get_char(i);
        let cb = b.get_char(i);
        if ca != cb {
            proof {
                assert(a@.skip(i as int)[0] == ca);
                assert(b@.skip(i as int)[0] == cb);
            }
            return ca < cb;
        }
        proof {
            assert(a@.skip(i as int).drop_first() =~= a@.skip(i + 1));
            assert(b@.skip(i as int).drop_first() =~= b@.skip(i + 1));
        }
        i = i + 1;
    }
    proof {
        assert(a@.skip(i as int).len() == na - i);
    }
    i < nb
}

/// The names are in strictly ascending order.
pub open spec fn ascending(v: Seq<Seq<char>>) -> bool {
    forall|i: int, j: int| 0 <= i < j < v.len() ==> name_lt(#[trigger] v[i], #[trigger] v[j])
}

/// Inserts `s` into the ascending `v` at its place unless it is there already.
pub fn insert_sorted(v: &mut Vec<String>, s: String)
    requires
        ascending(views(old(v)@)),
    ensures
        ascending(views(final(v)@)),
        views(final(v)@).to_set() == views(old(v)@).to_set().insert(s@),
{
    let ghost v0 = views(v@);
    let mut k: usize = 0;
    while k < v.len() && str_lt(v[k].as_str(), s.as_str())
        invariant
            v@ == old(v)@,
            v0 == views(v@),
            ascending(v0),
            k <= v@.len(),
            forall|m: int| 0 <= m < k ==> name_lt(#[trigger] v0[m], s@),
        decreases v@.len() - k,
    {
        k = k + 1;
    }
    if k < v.len() && v[k] == s {
        proof {
            assert(v0[k as int] == s@);
            assert(v0.to_set().contains(s@));
            assert(v0.to_set().insert(s@) =~= v0.to_set());
        }
        return;
    }
    proof {
        if k < v@.len() {
            lemma_name_lt_total(v0[k as int], s@);
            assert(name_lt(s@, v0[k as int]));
        }
    }
    v.insert(k, s);
    proof {
        let v1 = views(v@);
        assert(v1 =~= v0.insert(k as int, s@));
        assert forall|i: int, j: int| 0 <= i < j < v1.len() implies name_lt(#[trigger] v1[i], #[trigger] v1[j]) by {
            if j == k {
            } else if i == k {
                if j > k + 1 {
                    lemma_name_lt_transitive(s@, v0[k as int], v0[j - 1]);
                }
            } else if i < k && j > k {
                assert(v1[i] == v0[i] && v1[j] == v0[j - 1]);
            } else if i > k {
                assert(v1[i] == v0[i - 1] && v1[j] == v0[j - 1]);
            }
        }
        assert forall|x: Seq<char>| v1.to_set().contains(x) <==> v0.to_set().insert(s@).contains(x) by {
            if v1.contains(x) {
                let i = choose|i: int| 0 <= i < v1.len() && v1[i] == x;
                if i < k {
                    assert(v0[i] == x);
                } else if i > k {
                    assert(v0[i - 1] == x);
                }
            }
            if v0.contains(x) {
                let i = choose|i: int| 0 <= i < v0.len() && v0[i] == x;
                if i < k {
                    assert(v1[i] == x);
                } else {
                    assert(v1[i + 1] == x);
                }
            }
            if x == s@ {
                assert(v1[k as int] == x);
            }
        }
        assert(v1.to_set() =~= v0.to_set().insert(s@));
    }
}

} // verus!
