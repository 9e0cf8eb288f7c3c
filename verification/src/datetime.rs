//! Reading `YYYY-MM-DD HH:MM:SS` timestamps from backups.
use vstd::prelude::*;
use crate::text::{
    chars_of, parse_u32, parse_unsigned, sub_chars, trim, trim_chars, views_of,
};

verus! {

/// A date and time of day, as handed to the database. Each part is the
/// number read from the text, cut to the width of its field.
#[derive(Clone, Copy, Debug, PartialEq, Eq, Structural)]
pub struct DateTimeValue {
    pub year: u16,
    pub month: u8,
    pub day: u8,
    pub hour: u8,
    pub minute: u8,
    pub second: u8,
}

/// The pieces of `s` between occurrences of `sep`, as `str::split` gives
/// them (there is always at least one piece).
pub open spec fn split_on(s: Seq<char>, sep: char) -> Seq<Seq<char>>
    decreases s.len(),
{
    if s.len() == 0 {
        seq![seq![]]
    } else {
        let init = split_on(s.drop_last(), sep);
        if s.last() == sep {
            init.push(seq![])
        } else {
            init.update(init.len() - 1, init.last().push(s.last()))
        }
    }
}

/// The position of the first `c` in `s`, or `s.len()` when there is none.
pub open spec fn index_of(s: Seq<char>, c: char) -> int
    decreases s.len(),
{
    if s.len() == 0 {
        0
    } else if s[0] == c {
        0
    } else {
        1 + index_of(s.drop_first(), c)
    }
}

/// The numbers among `parts`: each piece that reads as a `u32`, in order;
/// the others are left out.
pub open spec fn parsed_numbers(parts: Seq<Seq<char>>) -> Seq<u32>
    decreases parts.len(),
{
    if parts.len() == 0 {
        seq![]
    } else {
        let init = parsed_numbers(parts.drop_last());
        match parse_unsigned(parts.last(), u32::MAX as nat) {
            Some(n) => init.push(n as u32),
            None => init,
        }
    }
}

/// The time of day assumed when a timestamp has none.
pub open spec fn midnight() -> Seq<char> {
    seq!['0', '0', ':', '0', '0', ':', '0', '0']
}

/// The `i`-th number of `nums`, or 0 when there are fewer.
pub open spec fn nth_or_zero(nums: Seq<u32>, i: int) -> u32 {
    if 0 <= i < nums.len() {
        nums[i]
    } else {
        0
    }
}

/// The timestamp written in `value`, or `None` (the database then fills in
/// its own time). The trimmed text is cut at its first space into a date and
/// a time (midnight when there is no space); the numbers of the date are its
/// `-`-separated pieces that read as numbers, those of the time its
/// `:`-separated ones. There is a timestamp when the text is not blank and
/// the date has exactly three numbers: year, month, day; hour, minute and
/// second are the first three numbers of the time, 0 where missing.
pub open spec fn datetime_of(value: Seq<char>) -> Option<DateTimeValue> {
    let v = trim(value);
    let i = index_of(v, ' ');
    let date = v.take(i);
    let time = if i < v.len() {
        v.skip(i + 1)
    } else {
        midnight()
    };
    let d = parsed_numbers(split_on(date, '-'));
    let t = parsed_numbers(split_on(time, ':'));
    if v.len() == 0 || d.len() != 3 {
        None
    } else {
        Some(
            DateTimeValue {
                year: d[0] as u16,
                month: d[1] as u8,
                day: d[2] as u8,
                hour: nth_or_zero(t, 0) as u8,
                minute: nth_or_zero(t, 1) as u8,
                second: nth_or_zero(t, 2) as u8,
            },
        )
    }
}

pub proof fn lemma_split_nonempty(s: Seq<char>, sep: char)
    ensures
        split_on(s, sep).len() >= 1,
    decreases s.len(),
{
    if s.len() > 0 {
        lemma_split_nonempty(s.drop_last(), sep);
    }
}

/// The pieces of `v` between occurrences of `sep`.
pub fn split_chars(v: &Vec<char>, sep: char) -> (r: Vec<Vec<char>>)
    ensures
        views_of(r@) == split_on(v@, sep),
{
    let mut parts: Vec<Vec<char>> = Vec::new();
    let mut cur: Vec<char> = Vec::new();
    assert(v@.take(0) =~= Seq::<char>::empty());
    assert(views_of(parts@).push(cur@) =~= split_on(v@.take(0), sep));
    for i in 0..v.len()
        invariant
            views_of(parts@).push(cur@) == split_on(v@.take(i as int), sep),
    {
        let ghost t = v@.take(i + 1);
        proof {
            assert(t.drop_last() =~= v@.take(i as int));
            assert(t.last() == v@[i as int]);
            lemma_split_nonempty(v@.take(i as int), sep);
        }
        if v[i] == sep {
            let done = cur;
            parts.push(done);
            cur = Vec::new();
            assert(views_of(parts@).push(cur@) =~= split_on(t, sep));
        } else {
            let ghost before = views_of(parts@).push(cur@);
            cur.push(v[i]);
            assert(views_of(parts@).push(cur@) =~= before.update(
                before.len() - 1,
                before.last().push(v@[i as int]),
            ));
        }
    }
    assert(v@.take(v.len() as int) =~= v@);
    let ghost before = views_of(parts@);
    parts.push(cur);
    assert(views_of(parts@) =~= before.push(cur@));
    parts
}

/// The numbers among the `sep`-separated pieces of `v`.
pub fn numbers_in(v: &Vec<char>, sep: char) -> (r: Vec<u32>)
    ensures
        r@ == parsed_numbers(split_on(v@, sep)),
{
    let parts = split_chars(v, sep);
    let ghost pv = views_of(parts@);
    let mut nums: Vec<u32> = Vec::new();
    assert(pv.take(0) =~= Seq::<Seq<char>>::empty());
    for k in 0..parts.len()
        invariant
            pv == views_of(parts@),
            nums@ == parsed_numbers(pv.take(k as int)),
    {
        proof {
            let t = pv.take(k + 1);
            assert(t.drop_last() =~= pv.take(k as int));
            assert(t.last() == parts@[k as int]@);
        }
        match parse_u32(&parts[k]) {
            Some(n) => nums.push(n),
            None => {},
        }
    }
    assert(pv.take(parts.len() as int) =~= pv);
    nums
}

fn first_index_of(v: &Vec<char>, c: char) -> (r: usize)
    ensures
        r == index_of(v@, c),
        r <= v.len(),
{
    let mut i: usize = 0;
    assert(v@.skip(0) =~= v@);
    while i < v.len() && v[i] != c
        invariant
            i <= v.len(),
            index_of(v@, c) == i + index_of(v@.skip(i as int), c),
        decreases v.len() - i,
    {
        assert(v@.skip(i as int).drop_first() =~= v@.skip(i + 1));
        i = i + 1;
    }
    if i == v.len() {
        assert(v@.skip(i as int).len() == 0);
    } else {
        assert(v@.skip(i as int)[0] == c);
    }
    i
}

fn nth_or_zero_exec(nums: &Vec<u32>, i: usize) -> (r: u32)
    ensures
        r == nth_or_zero(nums@, i as int),
{
    if i < nums.len() {
        nums[i]
    } else {
        0
    }
}

/// Reads a `YYYY-MM-DD HH:MM:SS` timestamp from a backup. Blank or unreadable
/// text gives `None`, which leaves the time to the database.
pub fn parse_datetime(value: &str) -> (r: Option<DateTimeValue>)
    ensures
        r == datetime_of(value@),
{
    let all = chars_of(value);
    let v = trim_chars(&all);
    if v.len() == 0 {
        return None;
    }
    let i = first_index_of(&v, ' ');
    let date = sub_chars(&v, 0, i);
    let time = if i < v.len() {
        sub_chars(&v, i + 1, v.len())
    } else {
        chars_of("00:00:00")
    };
    proof {
        reveal_strlit("00:00:00");
        assert(date@ =~= v@.take(i as int));
        if i < v.len() {
            assert(time@ =~= v@.skip(i + 1));
        } else {
            assert(time@ =~= midnight());
        }
    }
    let d = numbers_in(&date, '-');
    let t = numbers_in(&time, ':');
    if d.len() != 3 {
        return None;
    }
    Some(
        DateTimeValue {
            year: d[0] as u16,
            month: d[1] as u8,
            day: d[2] as u8,
            hour: nth_or_zero_exec(&t, 0) as u8,
            minute: nth_or_zero_exec(&t, 1) as u8,
            second: nth_or_zero_exec(&t, 2) as u8,
        },
    )
}

} // verus!
