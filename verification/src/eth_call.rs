use vstd::prelude::*;
use vstd::string::*;
use crate::address::{is_hex_char, is_hex_text};
use crate::error::ReadError;
use crate::table::entry_views;
use crate::text::{chars_of, starts_with, string_of_range};

verus! {

/// The slots of a batch laid end to end, in the order of the batch.
pub open spec fn slots_text(batch: Seq<(u64, Seq<char>)>) -> Seq<char>
    decreases batch.len(),
{
    if batch.len() == 0 {
        Seq::<char>::empty()
    } else {
        slots_text(batch.drop_last()) + batch.last().1
    }
}

/// The words of a response: the response without a leading `0x`.
pub open spec fn response_body(response: Seq<char>) -> Seq<char> {
    if starts_with(response, seq!['0', 'x']) {
        response.skip(2)
    } else {
        response
    }
}

/// Whether a response holds one word of 64 lowercase hex digits for each of `n`
/// slots, and nothing else.
pub open spec fn response_fits(response: Seq<char>, n: nat) -> bool {
    response_body(response).len() == 64 * n && is_hex_text(response_body(response))
}

/// The words of a response given to the entries of the batch, in order.
pub open spec fn sliced(batch: Seq<(u64, Seq<char>)>, response: Seq<char>) -> Seq<
    (u64, Seq<char>),
> {
    Seq::new(
        batch.len(),
        |i: int| (batch[i].0, response_body(response).subrange(64 * i, 64 * i + 64)),
    )
}

/// The framing of the one remote call of a step.
#[derive(Clone, Copy, Debug)]
pub struct EthCall;

impl EthCall {
    /// The data of the call for a batch: its slots laid end to end, in order.
    pub fn request_data(slots: &Vec<(u64, String)>) -> (data: String)
        ensures
            data@ == slots_text(entry_views(slots@)),
    {
        let ghost views = entry_views(slots@);
        let mut data = String::new();
        let mut i: usize = 0;
        while i < slots.len()
            invariant
                i <= slots.len(),
                views == entry_views(slots@),
                data@ == slots_text(views.take(i as int)),
            decreases slots.len() - i,
        {
            proof {
                assert(views.take(i + 1).drop_last() =~= views.take(i as int));
                assert(views.take(i + 1).last() == (slots@[i as int].0, slots@[i as int].1@));
            }
            data.append(slots[i].1.as_str());
            i += 1;
        }
        assert(views.take(i as int) =~= views);
        data
    }

    /// Slices the response of the call into one value for each entry of the batch,
    /// in the order of the batch.
    ///
    /// Fails with `Malformed` unless the response, after an optional `0x`, holds
    /// exactly 64 lowercase hex digits for each entry.
    pub fn get_values_by_slots(slots: &Vec<(u64, String)>, response: &str) -> (r: Result<
        Vec<(u64, String)>,
        ReadError,
    >)
        ensures
            match r {
                Ok(values) => response_fits(response@, slots@.len()) && entry_views(values@)
                    == sliced(entry_views(slots@), response@),
                Err(e) => e == ReadError::Malformed && !response_fits(response@, slots@.len()),
            },
    {
        let v = chars_of(response);
        let start: usize = if v.len() >= 2 && v[0] == '0' && v[1] == 'x' {
            2
        } else {
            0
        };
        proof {
            if start == 2 {
                assert(v@.take(2) =~= seq!['0', 'x']);
            } else if starts_with(v@, seq!['0', 'x']) {
                assert(v@.take(2)[0] == '0' && v@.take(2)[1] == 'x');
            }
            assert(response_body(response@) =~= v@.subrange(start as int, v@.len() as int));
        }
        let ghost body = response_body(response@);
        let n = slots.len();
        let len = v.len() - start;
        if len % 64 != 0 || len / 64 != n {
            return Err(ReadError::Malformed);
        }
        let mut k: usize = start;
        while k < v.len()
            invariant
                start <= k <= v.len(),
                body == response_body(response@),
                body == v@.subrange(start as int, v@.len() as int),
                forall|j: int| 0 <= j < k - start ==> is_hex_char(#[trigger] body[j]),
            decreases v.len() - k,
        {
            let c = v[k];
            if !(('0' <= c && c <= '9') || ('a' <= c && c <= 'f')) {
                assert(body[k - start] == c);
                assert(!is_hex_char(body[k - start]));
                assert(!is_hex_text(body));
                return Err(ReadError::Malformed);
            }
            assert(body[k - start] == c);
            k += 1;
        }
        let mut values: Vec<(u64, String)> = Vec::new();
        let mut i: usize = 0;
        while i < n
            invariant
                i <= n,
                n == slots.len(),
                start <= v.len(),
                v.len() - start == 64 * n,
                body == v@.subrange(start as int, v@.len() as int),
                values@.len() == i,
                forall|j: int|
                    0 <= j < i ==> (#[trigger] values@[j]).0 == slots@[j].0 && values@[j].1@
                        == body.subrange(64 * j, 64 * j + 64),
            decreases n - i,
        {
            let from = start + 64 * i;
            let word = string_of_range(&v, from, from + 64);
            assert(word@ =~= body.subrange(64 * i, 64 * i + 64));
            values.push((slots[i].0, word));
            i += 1;
        }
        proof {
            let got = entry_views(values@);
            let want = sliced(entry_views(slots@), response@);
            assert forall|j: int| 0 <= j < got.len() implies got[j] == want[j] by {
                assert(got[j] == (values@[j].0, values@[j].1@));
                assert(entry_views(slots@)[j] == (slots@[j].0, slots@[j].1@));
            }
            assert(got =~= want);
        }
        Ok(values)
    }
}

} // verus!
