use vstd::prelude::*;

verus! {

/// Length of the leading run of non-separator characters.
pub open spec fn seg_len(s: Seq<char>) -> int
    decreases s.len(),
{
    if s.len() == 0 || s[0] == '/' {
        0
    } else {
        1 + seg_len(s.drop_first())
    }
}

pub proof fn lemma_seg_len_bounds(s: Seq<char>)
    ensures
        0 <= seg_len(s) <= s.len(),
        s.len() > 0 && s[0] != '/' ==> seg_len(s) >= 1,
    decreases s.len(),
{
    if s.len() > 0 && s[0] != '/' {
        lemma_seg_len_bounds(s.drop_first());
    }
}

/// The name components of a path: the maximal runs of non-separator
/// characters, in order. Separators only delimit; runs of them collapse.
pub open spec fn components_of(s: Seq<char>) -> Seq<Seq<char>>
    decreases s.len(),
    via components_of_decreases
{
    if s.len() == 0 {
        Seq::empty()
    } else if s[0] == '/' {
        components_of(s.drop_first())
    } else {
        seq![s.take(seg_len(s))] + components_of(s.skip(seg_len(s)))
    }
}

#[via_fn]
proof fn components_of_decreases(s: Seq<char>) {
    lemma_seg_len_bounds(s);
}

/// If the first k characters are non-separators and the string ends or has a
/// separator at k, then the leading segment is exactly k characters long.
pub proof fn lemma_seg_len_exact(s: Seq<char>, k: int)
    requires
        0 <= k <= s.len(),
        forall|j: int| 0 <= j < k ==> s[j] != '/',
        k < s.len() ==> s[k] == '/',
    ensures
        seg_len(s) == k,
    decreases s.len(),
{
    if k == 0 {
    } else {
        assert(s[0] != '/');
        assert forall|j: int| 0 <= j < k - 1 implies s.drop_first()[j] != '/' by {
            assert(s[j + 1] != '/');
        }
        if k - 1 < s.drop_first().len() {
            assert(s.drop_first()[k - 1] == s[k]);
        }
        lemma_seg_len_exact(s.drop_first(), k - 1);
    }
}

/// Splits a path string into its name components.
pub fn parse_components(s: &str) -> (r: Vec<String>)
    ensures
        r.deep_view() == components_of(s@),
{
    let n: usize = s.unicode_len();
    let mut r: Vec<String> = Vec::new();
    let mut i: usize = 0;
    proof {
        assert(r.deep_view() =~= Seq::<Seq<char>>::empty());
        assert(s@.skip(0) =~= s@);
    }
    while i < n
        invariant
            0 <= i <= n,
            n == s@.len(),
            r.deep_view() + components_of(s@.skip(i as int)) =~= components_of(s@),
        decreases n - i,
    {
        if s.get_char(i) == '/' {
            i = i + 1;
            proof {
                assert(s@.skip(i - 1).drop_first() =~= s@.skip(i as int));
            }
        } else {
            let ghost seg_start: int = i as int;
            let start: usize = i;
            i = i + 1;
            while i < n && s.get_char(i) != '/'
                invariant
                    0 <= start < i <= n,
                    n == s@.len(),
                    start == seg_start,
                    forall|j: int| seg_start <= j < i ==> s@[j] != '/',
                decreases n - i,
            {
                i = i + 1;
            }
            let comp: String = s.substring_char(start, i).to_owned();
            proof {
                let tail = s@.skip(seg_start);
                assert forall|j: int| 0 <= j < i - seg_start implies tail[j] != '/' by {
                    assert(tail[j] == s@[seg_start + j]);
                }
                if i < n {
                    assert(tail[i - seg_start] == s@[i as int]);
                }
                lemma_seg_len_exact(tail, i - seg_start);
                assert(tail.take(i - seg_start) =~= s@.subrange(seg_start, i as int));
                assert(tail.skip(i - seg_start) =~= s@.skip(i as int));
                assert(components_of(tail) == seq![comp@] + components_of(s@.skip(i as int)));
            }
            let ghost prev = r.deep_view();
            r.push(comp);
            proof {
                assert(r.deep_view() =~= prev.push(comp@));
                assert(prev.push(comp@) + components_of(s@.skip(i as int)) =~= prev + (seq![comp@]
                    + components_of(s@.skip(i as int))));
            }
        }
    }
    proof {
        assert(s@.skip(n as int) =~= Seq::<char>::empty());
    }
    r
}


/// The leading segment of a concatenation stops where the first part's
/// does, provided the second part opens with a separator or is empty.
proof fn lemma_seg_len_concat(a: Seq<char>, b: Seq<char>)
    requires
        b.len() == 0 || b[0] == '/',
    ensures
        seg_len(a + b) == seg_len(a),
    decreases a.len(),
{
    if a.len() == 0 {
        assert(a + b =~= b);
    } else if a[0] == '/' {
        assert((a + b)[0] == '/');
    } else {
        assert((a + b)[0] == a[0]);
        assert((a + b).drop_first() =~= a.drop_first() + b);
        lemma_seg_len_concat(a.drop_first(), b);
    }
}

/// Name components distribute over concatenation at a separator boundary.
pub proof fn lemma_components_concat(a: Seq<char>, b: Seq<char>)
    requires
        b.len() == 0 || b[0] == '/',
    ensures
        components_of(a + b) == components_of(a) + components_of(b),
    decreases a.len(),
{
    if a.len() == 0 {
        assert(a + b =~= b);
        assert(components_of(a) + components_of(b) =~= components_of(b));
    } else if a[0] == '/' {
        assert((a + b)[0] == '/');
        assert((a + b).drop_first() =~= a.drop_first() + b);
        lemma_components_concat(a.drop_first(), b);
    } else {
        assert((a + b)[0] == a[0]);
        lemma_seg_len_concat(a, b);
        lemma_seg_len_bounds(a);
        let k = seg_len(a);
        assert((a + b).take(k) =~= a.take(k));
        assert((a + b).skip(k) =~= a.skip(k) + b);
        lemma_components_concat(a.skip(k), b);
        assert(components_of(a + b) == seq![a.take(k)] + (components_of(a.skip(k))
            + components_of(b)));
        assert(seq![a.take(k)] + (components_of(a.skip(k)) + components_of(b)) =~= (seq![
            a.take(k),
        ] + components_of(a.skip(k))) + components_of(b));
    }
}

/// A separator followed by one plain name yields that name as the only
/// component.
pub proof fn lemma_components_single(b: Seq<char>)
    requires
        b.len() >= 1,
        b[0] == '/',
        forall|j: int| 1 <= j < b.len() ==> b[j] != '/',
        b.len() >= 2,
    ensures
        components_of(b) == seq![b.skip(1)],
    decreases b.len(),
{
    let rest = b.drop_first();
    assert(rest =~= b.skip(1));
    assert forall|j: int| 0 <= j < rest.len() implies rest[j] != '/' by {
        assert(b[j + 1] != '/');
    }
    lemma_seg_len_exact(rest, rest.len() as int);
    assert(rest.take(rest.len() as int) =~= rest);
    assert(rest.skip(rest.len() as int) =~= Seq::<char>::empty());
    assert(components_of(rest) == seq![rest] + components_of(Seq::<char>::empty()));
    assert(seq![rest] + Seq::<Seq<char>>::empty() =~= seq![rest]);
}

/// Joins a parent path and one plain local name with a separator; the
/// result's components are the parent's with the name appended.
pub fn join_path(parent: &str, name: &String) -> (r: String)
    requires
        name@.len() > 0,
        forall|j: int| 0 <= j < name@.len() ==> name@[j] != '/',
    ensures
        components_of(r@) == components_of(parent@).push(name@),
        r@.len() > 0,
        parent@.len() > 0 ==> r@[0] == parent@[0],
        parent@.len() == 0 ==> r@[0] == '/',
    {
        let r = parent.to_owned().concat("/").concat(name.as_str());
        proof {
            let sep = "/"@;
            reveal_strlit("/");
            assert(sep.len() == 1 && sep[0] == '/');
            let tail = sep + name@;
            assert(tail[0] == '/');
            assert forall|j: int| 1 <= j < tail.len() implies tail[j] != '/' by {
                assert(tail[j] == name@[j - 1]);
            }
            lemma_components_single(tail);
            assert(tail.skip(1) =~= name@);
            assert(r@ =~= parent@ + tail);
            lemma_components_concat(parent@, tail);
            assert(components_of(parent@) + seq![name@] =~= components_of(parent@).push(name@));
            if parent@.len() > 0 {
                assert(r@[0] == parent@[0]);
            }
        }
        r
    }

} // verus!

verus! {

/// A non-empty string free of separators is exactly one component.
pub proof fn lemma_plain_components(s: Seq<char>)
    requires
        s.len() > 0,
        forall|j: int| 0 <= j < s.len() ==> s[j] != '/',
    ensures
        components_of(s) == seq![s],
{
    lemma_seg_len_exact(s, s.len() as int);
    assert(s[0] != '/');
    assert(s.take(s.len() as int) =~= s);
    assert(s.skip(s.len() as int) =~= Seq::<char>::empty());
    assert(components_of(s) == seq![s] + components_of(Seq::<char>::empty()));
    assert(seq![s] + Seq::<Seq<char>>::empty() =~= seq![s]);
}

} // verus!
