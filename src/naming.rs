//! Data files are named `data<id>.dat`, where `<id>` is the decimal creation
//! number without leading zeros; only names of that shape are data files.
use vstd::prelude::*;

use crate::error::DatastoreError;

verus! {

pub open spec fn is_digit(c: u8) -> bool {
    48 <= c <= 57
}

/// The number that a string of decimal digits denotes.
pub open spec fn digits_value(s: Seq<u8>) -> nat
    decreases s.len(),
{
    if s.len() == 0 {
        0
    } else {
        digits_value(s.drop_last()) * 10 + (s.last() - 48) as nat
    }
}

/// The decimal digits of `n`, without leading zeros.
pub open spec fn decimal(n: nat) -> Seq<u8>
    decreases n,
{
    if n < 10 {
        seq![(48 + n) as u8]
    } else {
        decimal(n / 10).push((48 + n % 10) as u8)
    }
}

/// `data`
pub open spec fn name_prefix() -> Seq<u8> {
    seq![100u8, 97u8, 116u8, 97u8]
}

/// `.dat`
pub open spec fn name_suffix() -> Seq<u8> {
    seq![46u8, 100u8, 97u8, 116u8]
}

/// The name of data file `id`.
pub open spec fn file_name(id: u64) -> Seq<u8> {
    name_prefix() + decimal(id as nat) + name_suffix()
}

/// Decimal digits with no leading zero (but `0` itself).
pub open spec fn canonical_digits(m: Seq<u8>) -> bool {
    &&& m.len() >= 1
    &&& forall|i: int| 0 <= i < m.len() ==> is_digit(#[trigger] m[i])
    &&& (m.len() == 1 || m[0] != 48)
}

/// The identifier that a file name carries, if it names a data file.
pub open spec fn name_id(name: Seq<u8>) -> Option<u64> {
    if name.len() >= 9 && name.subrange(0, 4) == name_prefix() && name.subrange(
        name.len() - 4,
        name.len() as int,
    ) == name_suffix() {
        let m = name.subrange(4, name.len() - 4);
        if canonical_digits(m) && digits_value(m) <= u64::MAX {
            Some(digits_value(m) as u64)
        } else {
            None
        }
    } else {
        None
    }
}

proof fn lemma_digits_monotone(s: Seq<u8>, j: int)
    requires
        0 <= j <= s.len(),
    ensures
        digits_value(s) >= digits_value(s.subrange(0, j)),
    decreases s.len(),
{
    if j < s.len() {
        lemma_digits_monotone(s.drop_last(), j);
        assert(s.drop_last().subrange(0, j) =~= s.subrange(0, j));
    } else {
        assert(s.subrange(0, j) =~= s);
    }
}

proof fn lemma_decimal(n: nat)
    ensures
        canonical_digits(decimal(n)),
        digits_value(decimal(n)) == n,
    decreases n,
{
    if n >= 10 {
        lemma_decimal(n / 10);
        let d = decimal(n / 10);
        let c = (48 + n % 10) as u8;
        assert(decimal(n) == d.push(c));
        assert(d.push(c).drop_last() =~= d);
        assert(d.push(c)[0] == d[0]);
        if d.len() == 1 {
            assert(d.drop_last().len() == 0);
            assert(digits_value(d.drop_last()) == 0);
            assert(d.last() == d[0]);
            assert(digits_value(d) == (d[0] - 48) as nat);
            assert(d[0] != 48);
        }
        assert(digits_value(d.push(c)) == digits_value(d) * 10 + (c - 48) as nat);
        assert((c - 48) as nat == n % 10);
        assert(digits_value(d) == n / 10);
        assert forall|i: int| 0 <= i < d.push(c).len() implies is_digit(#[trigger] d.push(c)[i]) by {
            if i < d.len() {
                assert(d.push(c)[i] == d[i]);
            }
        }
        assert((n / 10) * 10 + n % 10 == n) by (nonlinear_arith);
    } else {
        let d = decimal(n);
        assert(d.drop_last().len() == 0);
        assert(digits_value(d.drop_last()) == 0);
        assert(d.last() == (48 + n) as u8);
    }
}

/// The name of data file `id` reads back as `id`.
pub proof fn lemma_name_round_trip(id: u64)
    ensures
        name_id(file_name(id)) == Some(id),
{
    let d = decimal(id as nat);
    let name = file_name(id);
    lemma_decimal(id as nat);
    assert(name.subrange(0, 4) =~= name_prefix());
    assert(name.subrange(name.len() - 4, name.len() as int) =~= name_suffix());
    assert(name.subrange(4, name.len() - 4) =~= d);
}

fn push_decimal(out: &mut Vec<u8>, n: u64)
    ensures
        final(out)@ == old(out)@ + decimal(n as nat),
    decreases n,
{
    let ghost start = out@;
    if n >= 10 {
        push_decimal(out, n / 10);
    }
    out.push((48 + n % 10) as u8);
    proof {
        if n >= 10 {
            assert(final(out)@ =~= start + decimal(n as nat));
        } else {
            assert(final(out)@ =~= start + decimal(n as nat));
        }
    }
}

/// The name of data file `id`, as bytes.
pub fn data_file_name(id: u64) -> (r: Vec<u8>)
    ensures
        r@ == file_name(id),
{
    let mut out: Vec<u8> = Vec::new();
    out.push(100u8);
    out.push(97u8);
    out.push(116u8);
    out.push(97u8);
    let ghost head = out@;
    push_decimal(&mut out, id);
    let ghost mid = out@;
    out.push(46u8);
    out.push(100u8);
    out.push(97u8);
    out.push(116u8);
    assert(head =~= name_prefix());
    assert(out@ =~= mid + name_suffix());
    out
}

/// The identifier in a data file's name, or `None` for any other name.
pub fn parse_data_file_name(name: &Vec<u8>) -> (r: Option<u64>)
    ensures
        r == name_id(name@),
{
    let n = name.len();
    if n < 9 {
        return None;
    }
    if name[0] != 100u8 || name[1] != 97u8 || name[2] != 116u8 || name[3] != 97u8 {
        assert(name@.subrange(0, 4)[0] == name@[0] && name@.subrange(0, 4)[1] == name@[1]
            && name@.subrange(0, 4)[2] == name@[2] && name@.subrange(0, 4)[3] == name@[3]);
        return None;
    }
    if name[n - 4] != 46u8 || name[n - 3] != 100u8 || name[n - 2] != 97u8 || name[n - 1] != 116u8 {
        let ghost t = name@.subrange(n - 4, n as int);
        assert(t[0] == name@[n - 4] && t[1] == name@[n - 3] && t[2] == name@[n - 2] && t[3]
            == name@[n - 1]);
        return None;
    }
    assert(name@.subrange(0, 4) =~= name_prefix());
    assert(name@.subrange(n - 4, n as int) =~= name_suffix());
    let ghost m = name@.subrange(4, n - 4);
    if name[4] == 48u8 && n > 9 {
        assert(m[0] == 48);
        return None;
    }
    let end = n - 4;
    let mut acc: u64 = 0;
    let mut i: usize = 4;
    while i < end
        invariant
            n == name@.len(),
            end == n - 4,
            n >= 9,
            m == name@.subrange(4, n - 4),
            4 <= i <= end,
            acc == digits_value(m.subrange(0, i - 4)),
            forall|j: int| 0 <= j < i - 4 ==> is_digit(#[trigger] m[j]),
        decreases end - i,
    {
        let c = name[i];
        assert(c == m[i - 4]);
        if c < 48u8 || c > 57u8 {
            return None;
        }
        let d = (c - 48u8) as u64;
        let ghost next = m.subrange(0, i - 4 + 1);
        assert(next.drop_last() =~= m.subrange(0, i - 4));
        if acc > (u64::MAX - d) / 10 {
            proof {
                assert(acc * 10 + d > u64::MAX) by (nonlinear_arith)
                    requires
                        acc > (u64::MAX - d) / 10,
                        d <= 9,
                ;
                lemma_digits_monotone(m, i - 4 + 1);
                if !canonical_digits(m) {
                } else {
                    assert(digits_value(m) > u64::MAX);
                }
            }
            return None;
        }
        assert(acc * 10 + d <= u64::MAX) by (nonlinear_arith)
            requires
                acc <= (u64::MAX - d) / 10,
                d <= 9,
        ;
        acc = acc * 10 + d;
        i = i + 1;
    }
    assert(m.subrange(0, i - 4) =~= m);
    Some(acc)
}

/// The identifiers of the data files among `names`, ascending and without
/// repeats.
pub fn data_file_ids(names: &Vec<Vec<u8>>) -> (r: Vec<u64>)
    ensures
        forall|i: int, j: int| 0 <= i < j < r@.len() ==> r@[i] < r@[j],
        forall|id: u64|
            r@.contains(id) <==> exists|i: int|
                0 <= i < names@.len() && name_id(#[trigger] names@[i]@) == Some(id),
{
    let mut out: Vec<u64> = Vec::new();
    let mut i: usize = 0;
    while i < names.len()
        invariant
            i <= names@.len(),
            forall|a: int, b: int| 0 <= a < b < out@.len() ==> out@[a] < out@[b],
            forall|id: u64|
                out@.contains(id) <==> exists|k: int|
                    0 <= k < i && name_id(#[trigger] names@[k]@) == Some(id),
        decreases names@.len() - i,
    {
        let parsed = parse_data_file_name(&names[i]);
        let ghost before = out@;
        match parsed {
            Some(id) => insert_sorted(&mut out, id),
            None => {},
        }
        assert forall|id: u64| out@.contains(id) <==> exists|k: int|
            0 <= k < i + 1 && name_id(#[trigger] names@[k]@) == Some(id) by {
            if out@.contains(id) && !before.contains(id) {
                assert(name_id(names@[i as int]@) == Some(id));
            }
            if exists|k: int| 0 <= k < i + 1 && name_id(#[trigger] names@[k]@) == Some(id) {
                let k = choose|k: int| 0 <= k < i + 1 && name_id(#[trigger] names@[k]@) == Some(id);
                if k < i {
                    assert(before.contains(id));
                }
            }
        }
        i = i + 1;
    }
    out
}

/// Adds `x` to a strictly ascending vector, keeping it so.
fn insert_sorted(v: &mut Vec<u64>, x: u64)
    requires
        forall|a: int, b: int| 0 <= a < b < old(v)@.len() ==> old(v)@[a] < old(v)@[b],
    ensures
        forall|a: int, b: int| 0 <= a < b < final(v)@.len() ==> final(v)@[a] < final(v)@[b],
        forall|y: u64| final(v)@.contains(y) <==> (old(v)@.contains(y) || y == x),
{
    let mut i: usize = 0;
    while i < v.len() && v[i] < x
        invariant
            i <= v@.len(),
            forall|a: int| 0 <= a < i ==> v@[a] < x,
        decreases v@.len() - i,
    {
        i = i + 1;
    }
    if i < v.len() && v[i] == x {
        assert(v@[i as int] == x);
        assert forall|y: u64| v@.contains(y) <==> (v@.contains(y) || y == x) by {}
    } else {
        let ghost before = v@;
        v.insert(i, x);
        proof {
            lemma_insert_sorted(before, x, i as int, v@);
        }
    }
}

proof fn lemma_insert_sorted(before: Seq<u64>, x: u64, i: int, after: Seq<u64>)
    requires
        0 <= i <= before.len(),
        forall|a: int, b: int| 0 <= a < b < before.len() ==> before[a] < before[b],
        forall|a: int| 0 <= a < i ==> before[a] < x,
        i < before.len() ==> before[i] != x && !(before[i] < x),
        after == before.insert(i, x),
    ensures
        forall|a: int, b: int| 0 <= a < b < after.len() ==> after[a] < after[b],
        forall|y: u64| after.contains(y) <==> (before.contains(y) || y == x),
{
    assert forall|a: int, b: int| 0 <= a < b < after.len() implies after[a] < after[b] by {
        if b < i {
        } else if b == i {
        } else if a < i {
            assert(before[b - 1] >= x) by {
                if b - 1 > i {
                    assert(before[i] < before[b - 1]);
                }
            }
        } else if a == i {
            assert(before[b - 1] >= before[i]) by {
                if b - 1 > i {
                    assert(before[i] < before[b - 1]);
                }
            }
        } else {
            assert(before[a - 1] < before[b - 1]);
        }
    }
    assert forall|y: u64| after.contains(y) <==> (before.contains(y) || y == x) by {
        if after.contains(y) {
            let k = choose|k: int| 0 <= k < after.len() && after[k] == y;
            if k < i {
                assert(before[k] == y);
            } else if k > i {
                assert(before[k - 1] == y);
            }
        }
        if before.contains(y) {
            let k = choose|k: int| 0 <= k < before.len() && before[k] == y;
            if k < i {
                assert(after[k] == y);
            } else {
                assert(after[k + 1] == y);
            }
        }
        if y == x {
            assert(after[i] == x);
        }
    }
}

/// Checks the target path before opening: it must exist and be a directory.
pub fn validate_directory(exists: bool, is_dir: bool) -> (r: Result<(), DatastoreError>)
    ensures
        !exists ==> r == Err::<(), DatastoreError>(DatastoreError::NonExistentDatastore),
        exists && !is_dir ==> r == Err::<(), DatastoreError>(DatastoreError::NonDirectoryDatastore),
        exists && is_dir ==> r is Ok,
{
    if !exists {
        Err(DatastoreError::NonExistentDatastore)
    } else if !is_dir {
        Err(DatastoreError::NonDirectoryDatastore)
    } else {
        Ok(())
    }
}

} // verus!
