use vstd::prelude::*;
use vstd::string::StringExecFns;

use crate::error::Error;

verus! {

pub open spec fn digit_char(d: nat) -> char {
    if d == 0 {
        '0'
    } else if d == 1 {
        '1'
    } else if d == 2 {
        '2'
    } else if d == 3 {
        '3'
    } else if d == 4 {
        '4'
    } else if d == 5 {
        '5'
    } else if d == 6 {
        '6'
    } else if d == 7 {
        '7'
    } else if d == 8 {
        '8'
    } else {
        '9'
    }
}

/// Decimal digits of `n`, padded with leading zeros to at least `width` digits.
pub open spec fn decimal(n: nat, width: nat) -> Seq<char>
    decreases n + width,
{
    if n < 10 && width <= 1 {
        seq![digit_char(n)]
    } else {
        decimal(n / 10, if width > 0 { (width - 1) as nat } else { 0 }) + seq![digit_char(n % 10)]
    }
}

/// The name of the data file with this id: nine-digit zero-padded id and `.data`.
pub open spec fn data_file_name(file_id: u32) -> Seq<char> {
    decimal(file_id as nat, 9) + ".data"@
}

fn digit_str(d: u32) -> (r: &'static str)
    requires
        d < 10,
    ensures
        r@ == seq![digit_char(d as nat)],
{
    proof {
        reveal_strlit("0");
        reveal_strlit("1");
        reveal_strlit("2");
        reveal_strlit("3");
        reveal_strlit("4");
        reveal_strlit("5");
        reveal_strlit("6");
        reveal_strlit("7");
        reveal_strlit("8");
        reveal_strlit("9");
    }
    if d == 0 {
        "0"
    } else if d == 1 {
        "1"
    } else if d == 2 {
        "2"
    } else if d == 3 {
        "3"
    } else if d == 4 {
        "4"
    } else if d == 5 {
        "5"
    } else if d == 6 {
        "6"
    } else if d == 7 {
        "7"
    } else if d == 8 {
        "8"
    } else {
        "9"
    }
}

fn push_decimal(out: &mut String, n: u32, width: u32)
    ensures
        final(out)@ == old(out)@ + decimal(n as nat, width as nat),
    decreases n + width,
{
    if n < 10 && width <= 1 {
        out.append(digit_str(n));
    } else {
        let w = if width > 0 {
            width - 1
        } else {
            0
        };
        push_decimal(out, n / 10, w);
        out.append(digit_str(n % 10));
        assert(out@ =~= old(out)@ + decimal(n as nat, width as nat));
    }
}

/// `path` followed by a separator and `name`.
pub open spec fn join_path(path: Seq<char>, name: Seq<char>) -> Seq<char> {
    path + seq!['/'] + name
}

pub fn join(path: &str, name: &str) -> (r: String)
    ensures
        r@ == join_path(path@, name@),
{
    proof {
        reveal_strlit("/");
    }
    let mut s = String::from_str(path);
    s.append("/");
    s.append(name);
    assert(s@ =~= join_path(path@, name@));
    s
}

/// The side directory in which a merge writes its files.
pub fn get_merge_path(path: &str) -> (r: String)
    ensures
        r@ == join_path(path@, ".merge"@),
{
    join(path, ".merge")
}

pub fn get_data_file_path(path: &str, file_id: u32) -> (r: String)
    ensures
        r@ == join_path(path@, data_file_name(file_id)),
{
    let mut name = String::new();
    push_decimal(&mut name, file_id, 9);
    name.append(".data");
    assert(name@ =~= data_file_name(file_id));
    join(path, name.as_str())
}

/// A data file's name: it starts with a digit and ends with `.data`.
pub open spec fn is_data_file_name(name: Seq<u8>) -> bool {
    &&& name.len() >= 5
    &&& 48 <= name[0] <= 57
    &&& name.subrange(name.len() - 5, name.len() as int) == seq![46u8, 100u8, 97u8, 116u8, 97u8]
}

/// The length of the part of `name` before its first dot.
pub open spec fn stem_len(name: Seq<u8>) -> int
    decreases name.len(),
{
    if name.len() == 0 {
        0
    } else if name[0] == 46u8 {
        0
    } else {
        1 + stem_len(name.subrange(1, name.len() as int))
    }
}

/// The value of a string of decimal digits.
pub open spec fn dec_value(s: Seq<u8>) -> int
    decreases s.len(),
{
    if s.len() == 0 {
        0
    } else {
        dec_value(s.drop_last()) * 10 + (s.last() - 48)
    }
}

pub open spec fn all_digits(s: Seq<u8>) -> bool {
    forall|i: int| 0 <= i < s.len() ==> 48 <= #[trigger] s[i] <= 57
}

/// The id a data file's name gives: its part before the first dot read as a decimal
/// `u32`, if it is one.
pub open spec fn file_id_of(name: Seq<u8>) -> Option<u32> {
    let stem = name.subrange(0, stem_len(name));
    if stem.len() > 0 && all_digits(stem) && dec_value(stem) <= u32::MAX {
        Some(dec_value(stem) as u32)
    } else {
        None
    }
}

proof fn lemma_stem_step(name: Seq<u8>, i: int)
    requires
        0 <= i < name.len(),
        forall|j: int| 0 <= j < i ==> #[trigger] name[j] != 46u8,
    ensures
        name[i] == 46u8 ==> stem_len(name) == i,
        name[i] != 46u8 ==> stem_len(name) > i,
    decreases i,
{
    let rest = name.subrange(1, name.len() as int);
    lemma_stem_bounded(rest);
    if i > 0 {
        assert forall|j: int| 0 <= j < i - 1 implies #[trigger] rest[j] != 46u8 by {
            assert(rest[j] == name[j + 1]);
        }
        assert(rest[i - 1] == name[i]);
        assert(name[0] != 46u8);
        lemma_stem_step(rest, i - 1);
    }
}

proof fn lemma_stem_bounded(name: Seq<u8>)
    ensures
        0 <= stem_len(name) <= name.len(),
    decreases name.len(),
{
    if name.len() > 0 && name[0] != 46u8 {
        lemma_stem_bounded(name.subrange(1, name.len() as int));
    }
}

/// The id of a data file's name, if its stem is a decimal `u32`.
pub fn parse_file_id(name: &Vec<u8>) -> (r: Option<u32>)
    ensures
        r == file_id_of(name@),
{
    let mut value: u64 = 0;
    let mut i: usize = 0;
    let mut digits = true;
    proof {
        lemma_stem_bounded(name@);
    }
    while i < name.len() && name[i] != 46u8
        invariant
            i <= name@.len(),
            forall|j: int| 0 <= j < i ==> #[trigger] name@[j] != 46u8,
            digits == all_digits(name@.subrange(0, i as int)),
            digits ==> value == dec_value(name@.subrange(0, i as int)) && value <= u32::MAX,
            !digits ==> value == 0,
        decreases name@.len() - i,
    {
        let b = name[i];
        let ghost prefix = name@.subrange(0, i as int);
        let ghost next = name@.subrange(0, i + 1);
        proof {
            assert(next.drop_last() =~= prefix);
            assert(next.last() == b);
            assert forall|j: int| 0 <= j < i implies #[trigger] next[j] == prefix[j] by {}
        }
        if digits && 48 <= b && b <= 57 {
            let v = value * 10 + (b - 48) as u64;
            if v > u32::MAX as u64 {
                proof {
                    lemma_stem_bounded(name@);
                    lemma_stem_step(name@, i as int);
                    let stem = name@.subrange(0, stem_len(name@));
                    assert(stem.subrange(0, i + 1) =~= next);
                    assert(dec_value(next) == v);
                    if all_digits(stem) {
                        lemma_dec_grows(stem, i + 1);
                    }
                }
                return None;
            }
            value = v;
        } else {
            digits = false;
            value = 0;
        }
        i = i + 1;
    }
    proof {
        if i < name@.len() {
            lemma_stem_step(name@, i as int);
        } else {
            lemma_stem_len_no_dot(name@);
        }
    }
    if !digits || i == 0 {
        return None;
    }
    Some(value as u32)
}

proof fn lemma_stem_len_no_dot(name: Seq<u8>)
    requires
        forall|j: int| 0 <= j < name.len() ==> #[trigger] name[j] != 46u8,
    ensures
        stem_len(name) == name.len(),
    decreases name.len(),
{
    if name.len() > 0 {
        let rest = name.subrange(1, name.len() as int);
        assert forall|j: int| 0 <= j < rest.len() implies #[trigger] rest[j] != 46u8 by {
            assert(rest[j] == name[j + 1]);
        }
        lemma_stem_len_no_dot(rest);
    }
}

/// A digit string's value is at least that of any of its prefixes.
proof fn lemma_dec_grows(s: Seq<u8>, n: int)
    requires
        0 <= n <= s.len(),
        all_digits(s),
    ensures
        dec_value(s) >= dec_value(s.subrange(0, n)),
        dec_value(s.subrange(0, n)) >= 0,
    decreases s.len(),
{
    if s.len() > 0 {
        let d = s.drop_last();
        assert(all_digits(d)) by {
            assert forall|i: int| 0 <= i < d.len() implies 48 <= #[trigger] d[i] <= 57 by {
                assert(d[i] == s[i]);
            }
        }
        if n == s.len() {
            assert(s.subrange(0, n) =~= s);
            lemma_dec_grows(d, 0);
        } else {
            lemma_dec_grows(d, n);
            assert(d.subrange(0, n) =~= s.subrange(0, n));
        }
    } else {
        assert(s.subrange(0, n) =~= s);
    }
}

fn is_data_file(name: &Vec<u8>) -> (r: bool)
    ensures
        r == is_data_file_name(name@),
{
    let n = name.len();
    if n < 5 || name[0] < 48 || name[0] > 57 {
        return false;
    }
    let ok = name[n - 5] == 46u8 && name[n - 4] == 100u8 && name[n - 3] == 97u8 && name[n - 2]
        == 116u8 && name[n - 1] == 97u8;
    proof {
        let tail = name@.subrange(n - 5, n as int);
        if ok {
            assert(tail =~= seq![46u8, 100u8, 97u8, 116u8, 97u8]);
        } else {
            if tail == seq![46u8, 100u8, 97u8, 116u8, 97u8] {
                assert(tail[0] == name@[n - 5]);
                assert(tail[1] == name@[n - 4]);
                assert(tail[2] == name@[n - 3]);
                assert(tail[3] == name@[n - 2]);
                assert(tail[4] == name@[n - 1]);
            }
        }
    }
    ok
}

/// Some data file among `names` has id `id`.
pub open spec fn named_id(names: Seq<Vec<u8>>, id: u32) -> bool {
    exists|x: int| 0 <= x < names.len() && is_data_file_name(names[x]@) && file_id_of(names[x]@) == Some(id)
}

/// The ids of the data files among the names of a directory's entries, ascending;
/// fails with `Corrupt` when a data file's name has no decimal `u32` stem.
pub fn load_data_file_ids(names: &Vec<Vec<u8>>) -> (r: Result<Vec<u32>, Error>)
    ensures
        r is Err <==> exists|j: int|
            0 <= j < names@.len() && is_data_file_name(#[trigger] names@[j]@) && file_id_of(
                names@[j]@,
            ) is None,
        r is Err ==> r == Err::<Vec<u32>, Error>(Error::Corrupt),
        r matches Ok(ids) ==> forall|a: int, b: int| 0 <= a < b < ids@.len() ==> ids@[a] < ids@[b],
        r matches Ok(ids) ==> forall|a: int| 0 <= a < ids@.len() ==> named_id(names@, #[trigger] ids@[a]),
        r matches Ok(ids) ==> forall|j: int|
            0 <= j < names@.len() && is_data_file_name(#[trigger] names@[j]@) ==> ids@.contains(
                file_id_of(names@[j]@)->0,
            ),
{
    let mut ids: Vec<u32> = Vec::new();
    let mut j: usize = 0;
    while j < names.len()
        invariant
            j <= names@.len(),
            forall|a: int, b: int| 0 <= a < b < ids@.len() ==> ids@[a] < ids@[b],
            forall|a: int| 0 <= a < ids@.len() ==> named_id(names@, #[trigger] ids@[a]),
            forall|x: int|
                0 <= x < j && is_data_file_name(#[trigger] names@[x]@) ==> file_id_of(names@[x]@) is Some
                    && ids@.contains(file_id_of(names@[x]@)->0),
        decreases names@.len() - j,
    {
        if is_data_file(&names[j]) {
            let id = match parse_file_id(&names[j]) {
                Some(id) => id,
                None => return Err(Error::Corrupt),
            };
            let mut p: usize = 0;
            while p < ids.len() && ids[p] < id
                invariant
                    p <= ids@.len(),
                    forall|a: int| 0 <= a < p ==> #[trigger] ids@[a] < id,
                decreases ids@.len() - p,
            {
                p = p + 1;
            }
            if p < ids.len() && ids[p] == id {
                proof {
                    assert forall|x: int|
                        0 <= x < j + 1 && is_data_file_name(#[trigger] names@[x]@) implies file_id_of(names@[x]@) is Some
                            && ids@.contains(file_id_of(names@[x]@)->0) by {
                        if x == j {
                            assert(ids@[p as int] == id);
                        }
                    }
                }
            } else {
                let ghost before = ids@;
                ids.insert(p, id);
                proof {
                    assert forall|a: int, b: int| 0 <= a < b < ids@.len() implies ids@[a] < ids@[b] by {
                        if b < p {
                        } else if b == p {
                            assert(before[a] < id);
                        } else if a < p {
                            assert(ids@[b] == before[b - 1]);
                            assert(before[a] < id);
                            assert(id < before[p as int]);
                            if b - 1 > p {
                                assert(before[p as int] < before[b - 1]);
                            }
                        } else if a == p {
                            assert(ids@[b] == before[b - 1]);
                            if b - 1 > p {
                                assert(before[p as int] < before[b - 1]);
                            }
                        } else {
                            assert(ids@[a] == before[a - 1]);
                            assert(ids@[b] == before[b - 1]);
                        }
                    }
                    assert forall|a: int| 0 <= a < ids@.len() implies named_id(names@, #[trigger] ids@[a]) by {
                        if a == p {
                            assert(0 <= j < names@.len() && is_data_file_name(names@[j as int]@) && file_id_of(names@[j as int]@) == Some(ids@[a]));
                        } else if a < p {
                            assert(ids@[a] == before[a]);
                            assert(named_id(names@, before[a]));
                        } else {
                            assert(ids@[a] == before[a - 1]);
                            assert(named_id(names@, before[a - 1]));
                        }
                    }
                    assert forall|x: int|
                        0 <= x < j + 1 && is_data_file_name(#[trigger] names@[x]@) implies file_id_of(names@[x]@) is Some
                            && ids@.contains(file_id_of(names@[x]@)->0) by {
                        if x == j {
                            assert(ids@[p as int] == id);
                        } else {
                            let a = choose|a: int| 0 <= a < before.len() && before[a] == file_id_of(names@[x]@)->0;
                            if a < p {
                                assert(ids@[a] == before[a]);
                            } else {
                                assert(ids@[a + 1] == before[a]);
                            }
                        }
                    }
                }
            }
        }
        j = j + 1;
    }
    Ok(ids)
}

} // verus!
