//! Fix-up values, which replace the last two bytes of every 512 bytes of a record.

use vstd::prelude::*;

use crate::bytes::{holds_le, lemma_holds_le, read_u16_le, u16_le};
use crate::error::DriverError;

verus! {

/// A record after the fix-up values from `index` on were put in place. Each one replaces the
/// placeholder; those past the end of the record are passed over.
pub open spec fn fixed_from(
    data: Seq<u8>,
    placeholder: u16,
    offset: int,
    count: u16,
    index: int,
) -> Result<Seq<u8>, DriverError>
    decreases count - index,
{
    let at = 512 * index - 2;
    let value_at = offset + 2 * index;
    if index >= count {
        Ok(data)
    } else if at + 2 > data.len() {
        fixed_from(data, placeholder, offset, count, index + 1)
    } else if u16_le(data, at) != placeholder {
        Err(DriverError::Invalid)
    } else {
        fixed_from(
            data.update(at, data[value_at]).update(at + 1, data[value_at + 1]),
            placeholder,
            offset,
            count,
            index + 1,
        )
    }
}

/// A record after its fix-up values were put in place. The placeholder stands before the values.
pub open spec fn fixed(data: Seq<u8>, offset: int, count: u16) -> Result<Seq<u8>, DriverError> {
    if offset >= data.len() || offset + 2 + 2 * count > data.len() {
        Err(DriverError::OutOfBounds)
    } else {
        fixed_from(data, u16_le(data, offset), offset, count, 1)
    }
}

/// Whether a record is stored with fix-up values: the last two bytes of every 512 hold a placeholder,
/// which stands at an offset before the values that belong there.
pub open spec fn holds_fixed(
    data: Seq<u8>,
    offset: int,
    count: u16,
    placeholder: int,
    record: Seq<u8>,
) -> bool {
    &&& record.len() == data.len()
    &&& 0 <= offset
    &&& offset + 2 + 2 * count <= data.len()
    &&& offset + 2 + 2 * count <= 510
    &&& holds_le(data, offset, 2, placeholder)
    &&& forall|k: int| 0 <= k < data.len() && !is_fixed(count, k) ==> #[trigger] record[k] == data[k]
    &&& forall|i: int|
        1 <= i < count && 512 * i <= data.len() ==> {
            &&& #[trigger] holds_le(data, 512 * i - 2, 2, placeholder)
            &&& record[512 * i - 2] == data[offset + 2 * i]
            &&& record[512 * i - 1] == data[offset + 2 * i + 1]
        }
}

/// Whether a byte is one of those that fix-up values replace.
pub open spec fn is_fixed(count: u16, k: int) -> bool {
    k % 512 >= 510 && k / 512 + 1 < count
}

/// A record that is stored with fix-up values is read back as it was.
pub proof fn lemma_record_stored(
    data: Seq<u8>,
    offset: int,
    count: u16,
    placeholder: int,
    record: Seq<u8>,
)
    requires
        holds_fixed(data, offset, count, placeholder, record),
        data.len() % 512 == 0,
    ensures
        fixed(data, offset, count) == Ok::<Seq<u8>, DriverError>(record),
{
    lemma_holds_le(data, offset, 2, placeholder);
    lemma_record_stored_from(data, data, offset, count, placeholder, record, 1);
}

proof fn lemma_record_stored_from(
    data: Seq<u8>,
    state: Seq<u8>,
    offset: int,
    count: u16,
    placeholder: int,
    record: Seq<u8>,
    index: int,
)
    requires
        holds_fixed(data, offset, count, placeholder, record),
        data.len() % 512 == 0,
        1 <= index,
        state.len() == data.len(),
        forall|k: int|
            0 <= k < data.len() ==> #[trigger] state[k] == (if is_fixed(count, k) && k / 512 + 1
                < index {
                record[k]
            } else {
                data[k]
            }),
    ensures
        fixed_from(state, placeholder as u16, offset, count, index) == Ok::<Seq<u8>, DriverError>(
            record,
        ),
    decreases count - index,
{
    let at = 512 * index - 2;
    let value_at = offset + 2 * index;
    lemma_holds_le(data, offset, 2, placeholder);
    if index >= count {
        assert forall|k: int| 0 <= k < data.len() implies #[trigger] state[k] == record[k] by {
            if !is_fixed(count, k) {
                assert(record[k] == data[k]);
            }
        }
        assert(state =~= record);
    } else if at + 2 > data.len() {
        assert forall|k: int| 0 <= k < data.len() implies #[trigger] state[k] == (if is_fixed(
            count,
            k,
        ) && k / 512 + 1 < index + 1 {
            record[k]
        } else {
            data[k]
        }) by {
            assert(k / 512 + 1 < index || k / 512 + 1 > index || k >= 512 * index - 512);
        }
        lemma_record_stored_from(
            data,
            state,
            offset,
            count,
            placeholder,
            record,
            index + 1,
        );
    } else {
        assert(holds_le(data, 512 * index - 2, 2, placeholder));
        lemma_holds_le(data, at, 2, placeholder);
        assert(state[at] == data[at] && state[at + 1] == data[at + 1]);
        assert(u16_le(state, at) == placeholder);
        assert(value_at % 512 < 510 && (value_at + 1) % 512 < 510);
        assert(state[value_at] == data[value_at] && state[value_at + 1] == data[value_at + 1]);
        let next = state.update(at, state[value_at]).update(at + 1, state[value_at + 1]);
        assert forall|k: int| 0 <= k < data.len() implies #[trigger] next[k] == (if is_fixed(
            count,
            k,
        ) && k / 512 + 1 < index + 1 {
            record[k]
        } else {
            data[k]
        }) by {
            if k == at || k == at + 1 {
                assert(is_fixed(count, k));
            } else {
                assert(next[k] == state[k]);
                if k / 512 + 1 == index && k % 512 >= 510 {
                    assert(k == at || k == at + 1);
                }
            }
        }
        lemma_record_stored_from(data, next, offset, count, placeholder, record, index + 1);
    }
}

/// Putting fix-up values in place keeps the size of a record and every byte that is not one of the
/// last two of 512.
pub proof fn lemma_fixed_from(
    data: Seq<u8>,
    placeholder: u16,
    offset: int,
    count: u16,
    index: int,
)
    requires
        1 <= index,
    ensures
        fixed_from(data, placeholder, offset, count, index) matches Ok(result) ==> {
            &&& result.len() == data.len()
            &&& forall|k: int|
                0 <= k < data.len() && k % 512 < 510 ==> #[trigger] result[k] == data[k]
        },
    decreases count - index,
{
    let at = 512 * index - 2;
    let value_at = offset + 2 * index;
    if index < count {
        if at + 2 > data.len() {
            lemma_fixed_from(data, placeholder, offset, count, index + 1);
        } else if u16_le(data, at) == placeholder {
            let next = data.update(at, data[value_at]).update(at + 1, data[value_at + 1]);
            lemma_fixed_from(next, placeholder, offset, count, index + 1);
            assert forall|k: int| 0 <= k < data.len() && k % 512 < 510 implies next[k]
                == data[k] by {
                assert(k != at && k != at + 1);
            }
        }
    }
}

/// Puts the fix-up values of a record in place.
pub fn apply_fixup_values(data: &mut Vec<u8>, offset: usize, count: u16) -> (result: Result<
    (),
    DriverError,
>)
    ensures
        match result {
            Ok(()) => fixed(old(data)@, offset as int, count) == Ok::<Seq<u8>, DriverError>(
                final(data)@,
            ),
            Err(error) => fixed(old(data)@, offset as int, count) == Err::<Seq<u8>, DriverError>(
                error,
            ),
        },
        final(data)@.len() == old(data)@.len(),
{
    let length: usize = data.len();
    if offset >= length {
        return Err(DriverError::OutOfBounds);
    }
    let values_size: usize = 2 + 2 * (count as usize);
    if values_size > length - offset {
        return Err(DriverError::OutOfBounds);
    }
    let ghost whole = fixed(data@, offset as int, count);
    let placeholder: u16 = read_u16_le(data.as_slice(), offset);
    let mut index: u16 = 1;
    while index < count
        invariant
            1 <= index,
            index <= count || count == 0,
            length == data@.len(),
            length == old(data)@.len(),
            offset + 2 + 2 * count <= length,
            whole == fixed(old(data)@, offset as int, count),
            whole == fixed_from(data@, placeholder, offset as int, count, index as int),
        decreases count - index,
    {
        let at: usize = 512 * (index as usize) - 2;
        let value_at: usize = offset + 2 * (index as usize);
        if at <= length - 2 {
            if read_u16_le(data.as_slice(), at) != placeholder {
                return Err(DriverError::Invalid);
            }
            let first: u8 = data[value_at];
            let second: u8 = data[value_at + 1];
            data.set(at, first);
            data.set(at + 1, second);
        }
        index += 1;
    }
    Ok(())
}

} // verus!
