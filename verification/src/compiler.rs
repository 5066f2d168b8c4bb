use vstd::prelude::*;
use vstd::string::*;
use crate::config_util::texts;
use crate::error::DescriptorError;
use crate::text::{chars_of, string_of_range};

verus! {

/// The code that stands before each base slot in the compiled accessor.
pub open spec fn specifier() -> Seq<char> {
    seq!['5', 'f', '1', 'b', '8', '1', '5', '6', '5', 'b', '7', 'f']
}

/// The base slots found in hex bytecode from position `i` on.
///
/// The scan goes byte by byte, two digits at a time, while more than twelve digits
/// are left. Where the twelve digits at the position are the specifier, the 64
/// digits behind them are a slot and the scan goes on behind the slot; where fewer
/// than 64 digits are left behind the specifier, the scan ends.
pub open spec fn slots_from(code: Seq<char>, i: int) -> Seq<Seq<char>>
    decreases code.len() - i,
{
    if i < 0 || i + 12 >= code.len() {
        Seq::<Seq<char>>::empty()
    } else if code.subrange(i, i + 12) == specifier() {
        if i + 76 <= code.len() {
            seq![code.subrange(i + 12, i + 76)] + slots_from(code, i + 76)
        } else {
            Seq::<Seq<char>>::empty()
        }
    } else {
        slots_from(code, i + 2)
    }
}

/// The compiler's side of a run, as far as it is computed from plain values.
#[derive(Clone, Debug)]
pub struct Compiler {
    pub bundle: String,
    pub solc_path: String,
}

impl Compiler {
    /// A compiler setup for a bundle.
    pub fn new(solc_path: String, bundle: String) -> (c: Self)
        ensures
            c.solc_path == solc_path,
            c.bundle == bundle,
    {
        Self { bundle, solc_path }
    }

    /// The base slots that the deployed bytecode of the accessor holds, in order,
    /// each as 64 hex digits.
    ///
    /// Fails with `NoBaseSlots` where the bytecode holds none.
    pub fn get_slots(bytecode: &str) -> (r: Result<Vec<String>, DescriptorError>)
        ensures
            match r {
                Ok(slots) => texts(slots@) == slots_from(bytecode@, 0)
                    && slots@.len() > 0,
                Err(e) => e == DescriptorError::NoBaseSlots && slots_from(bytecode@, 0).len() == 0,
            },
    {
        let v = chars_of(bytecode);
        let n = v.len();
        let mut slots: Vec<String> = Vec::new();
        let mut i: usize = 0;
        assert(texts(slots@) =~= Seq::<Seq<char>>::empty());
        while n > 12 && i < n - 12
            invariant
                n == v.len(),
                v@ == bytecode@,
                i <= n,
                slots_from(v@, 0) == texts(slots@) + slots_from(v@, i as int),
            ensures
                slots_from(v@, 0) == texts(slots@),
            decreases n - i,
        {
            let mut same = true;
            let mut k: usize = 0;
            assert(v@.subrange(i as int, i as int) =~= specifier().take(0));
            while k < 12
                invariant
                    k <= 12,
                    i + 12 < v.len(),
                    same == (v@.subrange(i as int, i + k) == specifier().take(k as int)),
                decreases 12 - k,
            {
                let want = Self::specifier_char(k);
                proof {
                    let a = v@.subrange(i as int, i + k + 1);
                    let b = specifier().take(k + 1);
                    assert(a.drop_last() =~= v@.subrange(i as int, i + k));
                    assert(b.drop_last() =~= specifier().take(k as int));
                    assert(a.last() == v@[i + k] && b.last() == want);
                    if a == b {
                        assert(a.drop_last() == b.drop_last());
                    }
                    if v@[i + k] == want && same {
                        assert(a =~= b);
                    }
                }
                if v[i + k] != want {
                    same = false;
                }
                k += 1;
            }
            assert(specifier().take(12) =~= specifier());
            if same {
                if n - i < 76 {
                    assert(texts(slots@) + Seq::<Seq<char>>::empty()
                        =~= texts(slots@));
                    break ;
                }
                let ghost before = texts(slots@);
                let slot = string_of_range(&v, i + 12, i + 76);
                slots.push(slot);
                proof {
                    let found = v@.subrange(i + 12, i + 76);
                    assert(texts(slots@) =~= before.push(found));
                    assert(before + (seq![found] + slots_from(v@, i + 76)) =~= before.push(found)
                        + slots_from(v@, i + 76));
                }
                i += 76;
            } else {
                i += 2;
            }
        }
        proof {
            assert(texts(slots@) + Seq::<Seq<char>>::empty()
                =~= texts(slots@));
        }
        if slots.len() == 0 {
            Err(DescriptorError::NoBaseSlots)
        } else {
            Ok(slots)
        }
    }

    /// The `k`-th digit of the specifier.
    fn specifier_char(k: usize) -> (c: char)
        requires
            k < 12,
        ensures
            c == specifier()[k as int],
    {
        if k == 0 {
            '5'
        } else if k == 1 {
            'f'
        } else if k == 2 {
            '1'
        } else if k == 3 {
            'b'
        } else if k == 4 {
            '8'
        } else if k == 5 {
            '1'
        } else if k == 6 {
            '5'
        } else if k == 7 {
            '6'
        } else if k == 8 {
            '5'
        } else if k == 9 {
            'b'
        } else if k == 10 {
            '7'
        } else {
            'f'
        }
    }
}

} // verus!
