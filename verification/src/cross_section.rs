//! Point numbering for cross sections: each intersection point is identified
//! by a text key, and points with the same key share one index, so that the
//! segments of the cross section form connected polygons.
use vstd::prelude::*;

verus! {

/// `firsts` lists, in increasing order, the first position of each distinct
/// key, and `ids` gives for each key the number of its distinct key.
pub open spec fn is_numbering(keys: Seq<String>, ids: Seq<usize>, firsts: Seq<usize>) -> bool {
    &&& ids.len() == keys.len()
    &&& forall|i: int|
        0 <= i < keys.len() ==> {
            &&& #[trigger] ids[i] < firsts.len()
            &&& firsts[ids[i] as int] <= i
            &&& keys[firsts[ids[i] as int] as int]@ == keys[i]@
        }
    &&& forall|d: int|
        0 <= d < firsts.len() ==> {
            &&& #[trigger] firsts[d] < keys.len()
            &&& ids[firsts[d] as int] == d
            &&& forall|j: int| 0 <= j < firsts[d] ==> (#[trigger] keys[j])@ != keys[firsts[d] as int]@
        }
    &&& forall|d: int, e: int| 0 <= d < e < firsts.len() ==> firsts[d] < firsts[e]
}

/// Numbers the points of a cross section by their keys, in order of first
/// appearance: the first new key gets index 0, the next new key index 1, and
/// a key seen before gets the index it got then. Returns the index of each key
/// and, for each index, the position of the key that introduced it, so that
/// the coordinates of each point are stored once.
pub fn number_points(keys: &Vec<String>) -> (res: (Vec<usize>, Vec<usize>))
    ensures
        is_numbering(keys@, res.0@, res.1@),
        forall|i: int, j: int|
            0 <= i < keys@.len() && 0 <= j < keys@.len() ==> (res.0@[i] == res.0@[j] <==> keys@[i]@
                == keys@[j]@),
{
    let mut ids: Vec<usize> = Vec::new();
    let mut firsts: Vec<usize> = Vec::new();
    let mut i: usize = 0;
    while i < keys.len()
        invariant
            i <= keys.len(),
            firsts.len() <= i,
            is_numbering(keys@.take(i as int), ids@, firsts@),
        decreases keys.len() - i,
    {
        let ghost pre_keys = keys@.take(i as int);
        let ghost post_keys = keys@.take(i + 1);
        assert(forall|j: int| 0 <= j < i ==> post_keys[j] == pre_keys[j]);
        assert(post_keys[i as int] == keys@[i as int]);
        let mut d: usize = 0;
        let mut found = false;
        while d < firsts.len()
            invariant_except_break
                !found,
            invariant
                i < keys.len(),
                d <= firsts.len(),
                firsts.len() <= i,
                is_numbering(pre_keys, ids@, firsts@),
                pre_keys == keys@.take(i as int),
                forall|e: int| 0 <= e < d ==> keys@[(#[trigger] firsts@[e]) as int]@ != keys@[i as int]@,
            ensures
                found ==> d < firsts.len() && keys@[firsts@[d as int] as int]@ == keys@[i as int]@,
                !found ==> forall|e: int|
                    0 <= e < firsts.len() ==> keys@[(#[trigger] firsts@[e]) as int]@ != keys@[i as int]@,
            decreases firsts.len() - d,
        {
            assert(firsts@[d as int] < i);
            assert(pre_keys[firsts@[d as int] as int] == keys@[firsts@[d as int] as int]);
            if keys[firsts[d]] == keys[i] {
                found = true;
                break;
            }
            d = d + 1;
        }
        if found {
            ids.push(d);
            proof {
                assert forall|k: int| 0 <= k < i + 1 implies {
                    &&& #[trigger] ids@[k] < firsts.len()
                    &&& firsts@[ids@[k] as int] <= k
                    &&& post_keys[firsts@[ids@[k] as int] as int]@ == post_keys[k]@
                } by {
                    if k < i {
                        assert(pre_keys[firsts@[ids@[k] as int] as int] == post_keys[firsts@[
                            ids@[k] as int
                        ] as int]);
                    }
                }
                assert forall|e: int| 0 <= e < firsts.len() implies {
                    &&& #[trigger] firsts@[e] < post_keys.len()
                    &&& ids@[firsts@[e] as int] == e
                    &&& forall|j: int|
                        0 <= j < firsts@[e] ==> (#[trigger] post_keys[j])@ != post_keys[firsts@[e] as int]@
                } by {
                    assert(firsts@[e] < i);
                    assert(forall|j: int|
                        0 <= j < firsts@[e] ==> (#[trigger] pre_keys[j])@ != pre_keys[firsts@[e] as int]@);
                }
            }
        } else {
            let ghost old_firsts = firsts@;
            ids.push(firsts.len());
            firsts.push(i);
            proof {
                assert forall|k: int| 0 <= k < i + 1 implies {
                    &&& #[trigger] ids@[k] < firsts.len()
                    &&& firsts@[ids@[k] as int] <= k
                    &&& post_keys[firsts@[ids@[k] as int] as int]@ == post_keys[k]@
                } by {
                    if k < i {
                        assert(firsts@[ids@[k] as int] == old_firsts[ids@[k] as int]);
                        assert(pre_keys[old_firsts[ids@[k] as int] as int] == post_keys[
                            old_firsts[ids@[k] as int] as int
                        ]);
                    }
                }
                assert forall|e: int| 0 <= e < firsts.len() implies {
                    &&& #[trigger] firsts@[e] < post_keys.len()
                    &&& ids@[firsts@[e] as int] == e
                    &&& forall|j: int|
                        0 <= j < firsts@[e] ==> (#[trigger] post_keys[j])@ != post_keys[firsts@[e] as int]@
                } by {
                    if e < old_firsts.len() {
                        assert(firsts@[e] == old_firsts[e]);
                        assert(old_firsts[e] < i);
                        assert(forall|j: int|
                            0 <= j < old_firsts[e] ==> (#[trigger] pre_keys[j])@ != pre_keys[old_firsts[e] as int]@);
                    } else {
                        assert forall|j: int| 0 <= j < i implies (#[trigger] post_keys[j])@ != post_keys[i as int]@ by {
                            let dd = ids@[j];
                            assert(pre_keys[old_firsts[dd as int] as int]@ == pre_keys[j]@);
                            assert(keys@[old_firsts[dd as int] as int]@ != keys@[i as int]@);
                        }
                    }
                }
            }
        }
        i = i + 1;
    }
    proof {
        assert(keys@.take(keys@.len() as int) =~= keys@);
        assert forall|a: int, b: int|
            0 <= a < keys@.len() && 0 <= b < keys@.len() implies (ids@[a] == ids@[b] <==> keys@[a]@
            == keys@[b]@) by {
            let da = ids@[a] as int;
            let db = ids@[b] as int;
            if keys@[a]@ == keys@[b]@ && da != db {
                if da < db {
                    assert(firsts@[da] < firsts@[db]);
                    assert(keys@[firsts@[da] as int]@ == keys@[firsts@[db] as int]@);
                } else {
                    assert(firsts@[db] < firsts@[da]);
                    assert(keys@[firsts@[db] as int]@ == keys@[firsts@[da] as int]@);
                }
            }
        }
    }
    (ids, firsts)
}

} // verus!
