use vstd::prelude::*;
use crate::text::replace_all;

verus! {

/// Whether `s` holds `f` at position `pos`.
fn occurs_at(s: &[u8], pos: usize, f: &[u8]) -> (r: bool)
    requires
        pos + f@.len() <= s@.len(),
    ensures
        r == (s@.subrange(pos as int, pos + f@.len()) == f@),
{
    let n = s.len();
    let mut k: usize = 0;
    while k < f.len()
        invariant
            n == s@.len(),
            pos + f@.len() <= s@.len(),
            0 <= k <= f@.len(),
            forall|m: int| 0 <= m < k ==> s@[pos + m] == f@[m],
        decreases f@.len() - k,
    {
        if s[pos + k] != f[k] {
            proof {
                assert(s@.subrange(pos as int, pos + f@.len())[k as int] != f@[k as int]);
            }
            return false;
        }
        k += 1;
    }
    proof {
        assert(s@.subrange(pos as int, pos + f@.len()) =~= f@);
    }
    true
}

/// Does the same as [str::replace], only for bytes instead of characters.
pub trait SliceReplace {
    spec fn bytes(&self) -> Seq<u8>;

    /// Replaces every non-overlapping occurrence of `from`, scanning from the
    /// left, with `to`.
    fn replace_slices(&self, from: &[u8], to: &[u8]) -> (r: Vec<u8>)
        requires
            from@.len() > 0,
        ensures
            r@ == replace_all(self.bytes(), from@, to@),
    ;
}

fn replace_in(s: &[u8], from: &[u8], to: &[u8]) -> (r: Vec<u8>)
    requires
        from@.len() > 0,
    ensures
        r@ == replace_all(s@, from@, to@),
{
    let mut result: Vec<u8> = Vec::new();
    if s.len() < from.len() {
        let mut k: usize = 0;
        while k < s.len()
            invariant
                0 <= k <= s@.len(),
                result@ == s@.subrange(0, k as int),
            decreases s@.len() - k,
        {
            result.push(s[k]);
            proof {
                assert(result@ =~= s@.subrange(0, k + 1));
            }
            k += 1;
        }
        proof {
            assert(s@.subrange(0, k as int) =~= s@);
        }
        return result;
    }
    let mut pos: usize = 0;
    proof {
        assert(s@.subrange(0, s@.len() as int) =~= s@);
    }
    while pos < s.len()
        invariant
            from@.len() > 0,
            0 <= pos <= s@.len(),
            result@ + replace_all(s@.subrange(pos as int, s@.len() as int), from@, to@) == replace_all(
                s@,
                from@,
                to@,
            ),
        decreases s@.len() - pos,
    {
        let ghost rest = s@.subrange(pos as int, s@.len() as int);
        let ghost before = result@;
        if from.len() > s.len() - pos {
            let mut k: usize = pos;
            while k < s.len()
                invariant
                    pos <= k <= s@.len(),
                    result@ == before + s@.subrange(pos as int, k as int),
                decreases s@.len() - k,
            {
                result.push(s[k]);
                proof {
                    assert(result@ =~= before + s@.subrange(pos as int, k + 1));
                }
                k += 1;
            }
            proof {
                assert(replace_all(rest, from@, to@) == rest);
                assert(s@.subrange(s@.len() as int, s@.len() as int) =~= Seq::<u8>::empty());
                assert(replace_all(Seq::<u8>::empty(), from@, to@) == Seq::<u8>::empty());
                assert(result@ + Seq::<u8>::empty() =~= result@);
            }
            pos = s.len();
        } else if occurs_at(s, pos, from) {
            let mut k: usize = 0;
            while k < to.len()
                invariant
                    0 <= k <= to@.len(),
                    result@ == before + to@.subrange(0, k as int),
                decreases to@.len() - k,
            {
                result.push(to[k]);
                proof {
                    assert(result@ =~= before + to@.subrange(0, k + 1));
                }
                k += 1;
            }
            proof {
                assert(to@.subrange(0, k as int) =~= to@);
                assert(rest.subrange(0, from@.len() as int) =~= s@.subrange(pos as int, pos + from@.len()));
                assert(rest.subrange(from@.len() as int, rest.len() as int) =~= s@.subrange(
                    pos + from@.len(),
                    s@.len() as int,
                ));
                assert(result@ + replace_all(s@.subrange(pos + from@.len(), s@.len() as int), from@, to@)
                    =~= before + replace_all(rest, from@, to@));
            }
            pos = pos + from.len();
        } else {
            result.push(s[pos]);
            proof {
                assert(rest.subrange(0, from@.len() as int) =~= s@.subrange(pos as int, pos + from@.len()));
                assert(rest.drop_first() =~= s@.subrange(pos + 1, s@.len() as int));
                assert(result@ + replace_all(s@.subrange(pos + 1, s@.len() as int), from@, to@) =~= before
                    + replace_all(rest, from@, to@));
            }
            pos = pos + 1;
        }
    }
    proof {
        assert(s@.subrange(pos as int, s@.len() as int) =~= Seq::<u8>::empty());
        assert(result@ + Seq::<u8>::empty() =~= result@);
    }
    result
}

impl SliceReplace for [u8] {
    open spec fn bytes(&self) -> Seq<u8> {
        self@
    }

    fn replace_slices(&self, from: &[u8], to: &[u8]) -> (r: Vec<u8>) {
        replace_in(self, from, to)
    }
}

impl SliceReplace for Vec<u8> {
    open spec fn bytes(&self) -> Seq<u8> {
        self@
    }

    fn replace_slices(&self, from: &[u8], to: &[u8]) -> (r: Vec<u8>) {
        replace_in(self.as_slice(), from, to)
    }
}

} // verus!
