//! Filter configurations applied to the message stream: an optional row
//! limit and optional sets of selected chats and handles.

use std::collections::BTreeSet;

use vstd::prelude::*;

verus! {

/// Represents filter configurations for a message query.
#[derive(Debug, Default)]
pub struct QueryContext {
    pub limit: Option<i32>,
    /// Selected handle IDs.
    pub selected_handle_ids: Option<BTreeSet<i32>>,
    /// Selected chat IDs.
    pub selected_chat_ids: Option<BTreeSet<i32>>,
}

impl QueryContext {
    /// Populate a [`QueryContext`] with a limit on the number of messages
    /// retrieved.
    pub fn set_limit(&mut self, limit: i32)
        ensures
            final(self).limit == Some(limit),
            final(self).selected_handle_ids == old(self).selected_handle_ids,
            final(self).selected_chat_ids == old(self).selected_chat_ids,
    {
        self.limit = Some(limit);
    }

    /// Populate a [`QueryContext`] with a list of handle IDs to select; an
    /// empty set clears the filter.
    pub fn set_selected_handle_ids(&mut self, selected_handle_ids: BTreeSet<i32>)
        ensures
            final(self).selected_handle_ids matches Some(s) ==> s@ == selected_handle_ids@
                && !selected_handle_ids@.is_empty(),
            final(self).selected_handle_ids is None ==> selected_handle_ids@.is_empty(),
            final(self).limit == old(self).limit,
            final(self).selected_chat_ids == old(self).selected_chat_ids,
    {
        if selected_handle_ids.is_empty() {
            self.selected_handle_ids = None;
        } else {
            self.selected_handle_ids = Some(selected_handle_ids);
        }
    }

    /// Populate a [`QueryContext`] with a list of chat IDs to select; an
    /// empty set clears the filter.
    pub fn set_selected_chat_ids(&mut self, selected_chat_ids: BTreeSet<i32>)
        ensures
            final(self).selected_chat_ids matches Some(s) ==> s@ == selected_chat_ids@
                && !selected_chat_ids@.is_empty(),
            final(self).selected_chat_ids is None ==> selected_chat_ids@.is_empty(),
            final(self).limit == old(self).limit,
            final(self).selected_handle_ids == old(self).selected_handle_ids,
    {
        if selected_chat_ids.is_empty() {
            self.selected_chat_ids = None;
        } else {
            self.selected_chat_ids = Some(selected_chat_ids);
        }
    }

    /// Whether the filters select a message sitting in the given chat and
    /// sent by the given handle: each filter that is present must be
    /// matched, and a message that lacks the filtered field cannot match
    /// that filter.
    pub fn message_selected(&self, chat_id: Option<i32>, handle_id: Option<i32>) -> (r: bool)
        ensures
            r == ((match self.selected_chat_ids {
                Option::Some(s) => chat_id matches Some(c) && s@.contains(c),
                Option::None => true,
            }) && (match self.selected_handle_ids {
                Option::Some(s) => handle_id matches Some(h) && s@.contains(h),
                Option::None => true,
            })),
    {
        let chat_ok = match &self.selected_chat_ids {
            Some(s) => match chat_id {
                Some(c) => {
                    let hit = s.contains(&c);
                    proof {
                        vstd::std_specs::btree::axiom_set_contains_deref_key::<i32>(s@, &c);
                    }
                    hit
                },
                None => false,
            },
            None => true,
        };
        let handle_ok = match &self.selected_handle_ids {
            Some(s) => match handle_id {
                Some(h) => {
                    let hit = s.contains(&h);
                    proof {
                        vstd::std_specs::btree::axiom_set_contains_deref_key::<i32>(s@, &h);
                    }
                    hit
                },
                None => false,
            },
            None => true,
        };
        chat_ok && handle_ok
    }

    /// Determine if the current [`QueryContext`] has any filters present.
    pub fn has_filters(&self) -> (r: bool)
        ensures
            r == (self.limit is Some || self.selected_chat_ids is Some
                || self.selected_handle_ids is Some),
    {
        self.limit.is_some() || self.selected_chat_ids.is_some()
            || self.selected_handle_ids.is_some()
    }
}

/// Whether the characters read as `YYYY-MM-DD` with a plausible month and
/// day: four year digits, a hyphen, two month digits no greater than
/// twelve, a hyphen, and at least one day digit reading no greater than
/// thirty-one.
pub open spec fn spec_digit_value(c: char) -> int {
    c as int - '0' as int
}

pub open spec fn spec_is_digit(c: char) -> bool {
    '0' <= c <= '9'
}

/// The number the digits from `from` up to `to` spell.
pub open spec fn spec_digits_value(s: Seq<char>, from: int, to: int) -> int
    decreases to - from,
{
    if to <= from {
        0
    } else {
        spec_digits_value(s, from, to - 1) * 10 + spec_digit_value(s[to - 1])
    }
}

/// The calendar fields a well-formed date string carries.
pub open spec fn spec_date_fields(s: Seq<char>) -> Option<(int, int, int)> {
    if s.len() < 9 {
        Option::None
    } else if !(spec_is_digit(s[0]) && spec_is_digit(s[1]) && spec_is_digit(s[2]) && spec_is_digit(
        s[3],
    ) && s[4] == '-' && spec_is_digit(s[5]) && spec_is_digit(s[6]) && s[7] == '-') {
        Option::None
    } else if exists|k: int| 8 <= k < s.len() && !spec_is_digit(#[trigger] s[k]) {
        Option::None
    } else {
        let year = ((spec_digit_value(s[0]) * 1000) + (spec_digit_value(s[1]) * 100) + (
        spec_digit_value(s[2]) * 10) + spec_digit_value(s[3]));
        let month = (spec_digit_value(s[5]) * 10) + spec_digit_value(s[6]);
        let day = spec_digits_value(s, 8, s.len() as int);
        if month > 12 || day > 31 {
            Option::None
        } else {
            Option::Some((year, month, day))
        }
    }
}

impl QueryContext {
    /// Ensure a date string is valid: a malformed string is always
    /// rejected, and a well-formed one succeeds exactly when the local
    /// calendar accepts the day. The returned stamp is the local midnight
    /// of that day, shifted back by the current UTC offset, in the
    /// database's nanosecond scale.
    pub fn sanitize_date(date: &str) -> (r: Option<i64>)
        ensures
            spec_date_fields(date@) is None ==> r is None,
    {
        let len = date.unicode_len();
        if len < 9 {
            return None;
        }
        let mut i: usize = 0;
        let mut ok = true;
        while i < 8
            invariant
                i <= 8,
                date@.len() >= 9,
                ok ==> forall|k: int|
                    0 <= k < i && k != 4 && k != 7 ==> spec_is_digit(#[trigger] date@[k]),
                ok ==> forall|k: int| 0 <= k < i && (k == 4 || k == 7) ==> date@[k] == '-',
            decreases 8 - i,
        {
            let c = date.get_char(i);
            if i == 4 || i == 7 {
                if c != '-' {
                    ok = false;
                }
            } else {
                if !(c >= '0' && c <= '9') {
                    ok = false;
                }
            }
            i += 1;
        }
        if !ok {
            return None;
        }
        let mut day: i64 = 0;
        let mut k: usize = 8;
        while k < len
            invariant
                8 <= k <= len == date@.len(),
                forall|x: int| 8 <= x < k ==> spec_is_digit(#[trigger] date@[x]),
                day == spec_digits_value(date@, 8, k as int),
                0 <= day <= 31,
            decreases len - k,
        {
            let c = date.get_char(k);
            if !(c >= '0' && c <= '9') {
                return None;
            }
            day = day * 10 + ((c as i64) - ('0' as i64));
            if day > 31 {
                return None;
            }
            k += 1;
        }
        let d0 = (date.get_char(0) as i64) - ('0' as i64);
        let d1 = (date.get_char(1) as i64) - ('0' as i64);
        let d2 = (date.get_char(2) as i64) - ('0' as i64);
        let d3 = (date.get_char(3) as i64) - ('0' as i64);
        let d5 = (date.get_char(5) as i64) - ('0' as i64);
        let d6 = (date.get_char(6) as i64) - ('0' as i64);
        let year: i64 = d0 * 1000 + d1 * 100 + d2 * 10 + d3;
        let month: i64 = d5 * 10 + d6;
        if month > 12 {
            return None;
        }
        proof {
            assert(spec_date_fields(date@) is Some);
        }
        let stamp = match crate::dates::local_midnight_nanos(
            year as i32,
            month as u32,
            day as u32,
        ) {
            Some(stamp) => stamp,
            None => {
                return None;
            },
        };
        let offset = crate::dates::get_offset();
        let shifted: i128 = (stamp as i128) - (offset as i128) * (
        crate::dates::TIMESTAMP_FACTOR as i128);
        if shifted >= i64::MIN as i128 && shifted <= i64::MAX as i128 {
            Some(shifted as i64)
        } else {
            None
        }
    }
}

} // verus!
