//! The lines of a remote directory listing: which of them name a zip
//! archive, how large it is said to be, and which archive is the newest.

use vstd::prelude::*;
use vstd::string::StrSliceExecFns;
use vstd::string::StringExecFns;

verus! {

/// A file of the remote directory.
#[derive(Debug, PartialEq, Eq)]
pub struct RemoteFile {
    /// The file's name.
    pub name: String,
    /// Its size in bytes as the listing gives it, 0 where it gives none
    /// that can be read.
    pub size: u64,
    /// When the file was last changed, as a count that grows with time.
    pub modified: u128,
}

/// Whether `c` is white space: a character with the Unicode property
/// `White_Space`.
pub open spec fn is_space(c: char) -> bool {
    let n = c as u32;
    (9 <= n <= 13) || n == 0x20 || n == 0x85 || n == 0xA0 || n == 0x1680 || (0x2000 <= n
        <= 0x200A) || n == 0x2028 || n == 0x2029 || n == 0x202F || n == 0x205F || n == 0x3000
}

/// The fields of `line`: its longest runs of characters that are not white
/// space, in order.
pub open spec fn fields(line: Seq<char>) -> Seq<Seq<char>>
    decreases line.len(),
{
    if line.len() == 0 {
        Seq::empty()
    } else {
        let earlier = fields(line.drop_last());
        if is_space(line.last()) {
            earlier
        } else if line.len() >= 2 && !is_space(line[line.len() - 2]) && earlier.len() > 0 {
            earlier.drop_last().push(earlier.last().push(line.last()))
        } else {
            earlier.push(seq![line.last()])
        }
    }
}

/// `parts` in a row, with one blank between each two.
pub open spec fn joined(parts: Seq<Seq<char>>) -> Seq<char>
    decreases parts.len(),
{
    if parts.len() == 0 {
        Seq::empty()
    } else if parts.len() == 1 {
        parts[0]
    } else {
        joined(parts.drop_last()) + seq![' '] + parts.last()
    }
}

/// Whether `c` is one of the digits `0` to `9`.
pub open spec fn is_digit(c: char) -> bool {
    48 <= c as u32 <= 57
}

/// Whether `s` holds digits only.
pub open spec fn all_digits(s: Seq<char>) -> bool {
    forall|i: int| 0 <= i < s.len() ==> is_digit(#[trigger] s[i])
}

/// The number that the digits `s` write in base ten.
pub open spec fn digits_value(s: Seq<char>) -> nat
    decreases s.len(),
{
    if s.len() == 0 {
        0
    } else {
        (digits_value(s.drop_last()) * 10 + (s.last() as u32 - 48)) as nat
    }
}

/// The size that `field` gives: the number it writes in base ten, with or
/// without a plus sign before it, where that is a number of 64 bits; 0
/// otherwise.
pub open spec fn size_of(field: Seq<char>) -> u64 {
    let digits = if field.len() > 0 && field[0] == '+' {
        field.skip(1)
    } else {
        field
    };
    if digits.len() > 0 && all_digits(digits) && digits_value(digits) <= u64::MAX {
        digits_value(digits) as u64
    } else {
        0
    }
}

/// Whether `name` ends in `.zip`.
pub open spec fn is_zip_name(name: Seq<char>) -> bool {
    name.len() >= 4 && name.subrange(name.len() - 4, name.len() as int) == seq!['.', 'z', 'i', 'p']
}

/// How many fields stand before the name in a line of a listing: the
/// permissions, the links, the owner, the group, the size and three for the
/// date.
pub const FIELDS_BEFORE_NAME: usize = 8;

/// Which of the fields holds the size.
pub const SIZE_FIELD: usize = 4;

/// The file that `line` names when `modified` is taken for its date: the
/// name is all from the ninth field on, the size is the fifth field. A line
/// of fewer than nine fields names no file.
pub open spec fn file_of(line: Seq<char>, modified: u128) -> Option<(Seq<char>, u64, u128)> {
    let f = fields(line);
    if f.len() > FIELDS_BEFORE_NAME {
        Some((joined(f.skip(FIELDS_BEFORE_NAME as int)), size_of(f[SIZE_FIELD as int]), modified))
    } else {
        None
    }
}

/// The zip archive that `line` names, if it names one.
pub open spec fn zip_file_of(line: Seq<char>, modified: u128) -> Option<(Seq<char>, u64, u128)> {
    match file_of(line, modified) {
        Some(file) => if is_zip_name(file.0) {
            Some(file)
        } else {
            None
        },
        None => None,
    }
}

/// Whether `field` holds a character and no white space.
pub open spec fn is_solid(field: Seq<char>) -> bool {
    field.len() > 0 && forall|i: int| 0 <= i < field.len() ==> !is_space(#[trigger] field[i])
}

/// No field of a line is empty and none holds white space; a line without
/// white space is its own single field.
pub proof fn law_fields_are_solid(line: Seq<char>)
    ensures
        forall|k: int| 0 <= k < fields(line).len() ==> is_solid(#[trigger] fields(line)[k]),
        is_solid(line) ==> fields(line) == seq![line],
    decreases line.len(),
{
    if line.len() > 0 {
        let shorter = line.drop_last();
        let earlier = fields(shorter);
        law_fields_are_solid(shorter);
        if !is_space(line.last()) {
            if line.len() >= 2 && !is_space(line[line.len() - 2]) && earlier.len() > 0 {
                let grown = earlier.last().push(line.last());
                assert(is_solid(earlier[earlier.len() - 1]));
                assert(is_solid(grown)) by {
                    assert forall|i: int| 0 <= i < grown.len() implies !is_space(
                        #[trigger] grown[i],
                    ) by {
                        if i < grown.len() - 1 {
                            assert(grown[i] == earlier.last()[i]);
                        }
                    }
                }
                assert forall|k: int| 0 <= k < fields(line).len() implies is_solid(
                    #[trigger] fields(line)[k],
                ) by {
                    if k < earlier.len() - 1 {
                        assert(fields(line)[k] == earlier[k]);
                    }
                }
            } else {
                assert(is_solid(seq![line.last()]));
                assert forall|k: int| 0 <= k < fields(line).len() implies is_solid(
                    #[trigger] fields(line)[k],
                ) by {
                    if k < earlier.len() {
                        assert(fields(line)[k] == earlier[k]);
                    }
                }
            }
        }
        if is_solid(line) {
            assert(!is_space(line[line.len() - 1]));
            if line.len() >= 2 {
                assert(!is_space(line[line.len() - 2]));
                assert(is_solid(shorter)) by {
                    assert forall|i: int| 0 <= i < shorter.len() implies !is_space(
                        #[trigger] shorter[i],
                    ) by {
                        assert(shorter[i] == line[i]);
                    }
                }
                assert(earlier == seq![shorter]);
                assert(shorter.push(line.last()) =~= line);
                assert(earlier.last() == shorter);
                assert(earlier.drop_last() =~= Seq::<Seq<char>>::empty());
                assert(earlier.drop_last().push(line) =~= seq![line]);
            } else {
                assert(shorter =~= Seq::<char>::empty());
                assert(earlier =~= Seq::<Seq<char>>::empty());
                assert(seq![line.last()] =~= line);
                assert(earlier.push(line) =~= seq![line]);
            }
        }
    }
}

/// The characters of `text`, one by one.
pub fn chars_of(text: &str) -> (chars: Vec<char>)
    ensures
        chars@ == text@,
{
    let mut chars: Vec<char> = Vec::new();
    for c in it: text.chars()
        invariant
            chars@ == it.seq().take(it.index()),
            it.seq() == text@,
    {
        chars.push(c);
    }
    chars
}

/// Whether `c` is white space.
pub fn is_space_char(c: char) -> (yes: bool)
    ensures
        yes == is_space(c),
{
    let n = c as u32;
    (9 <= n && n <= 13) || n == 0x20 || n == 0x85 || n == 0xA0 || n == 0x1680 || (0x2000 <= n
        && n <= 0x200A) || n == 0x2028 || n == 0x2029 || n == 0x202F || n == 0x205F || n
        == 0x3000
}

/// Where the fields of `chars` begin and end.
fn field_spans(chars: &Vec<char>) -> (spans: Vec<(usize, usize)>)
    ensures
        spans@.len() == fields(chars@).len(),
        forall|k: int|
            0 <= k < spans@.len() ==> (#[trigger] spans@[k]).0 <= spans@[k].1 <= chars@.len()
                && chars@.subrange(spans@[k].0 as int, spans@[k].1 as int) == fields(chars@)[k],
{
    let mut spans: Vec<(usize, usize)> = Vec::new();
    let mut in_run = false;
    let mut i: usize = 0;
    proof {
        assert(chars@.take(0) =~= Seq::<char>::empty());
    }
    while i < chars.len()
        invariant
            i <= chars@.len(),
            in_run == (i > 0 && !is_space(chars@[i - 1])),
            spans@.len() == fields(chars@.take(i as int)).len(),
            in_run ==> spans@.len() > 0 && spans@[spans@.len() - 1].1 == i,
            forall|k: int|
                0 <= k < spans@.len() ==> (#[trigger] spans@[k]).0 <= spans@[k].1 <= i
                    && chars@.subrange(spans@[k].0 as int, spans@[k].1 as int) == fields(
                    chars@.take(i as int),
                )[k],
        decreases chars@.len() - i,
    {
        let c = chars[i];
        let ghost before = chars@.take(i as int);
        let ghost now = chars@.take(i + 1);
        let ghost old_spans = spans@;
        proof {
            assert(now.drop_last() =~= before);
            assert(now.last() == c);
            if i > 0 {
                assert(now[now.len() - 2] == chars@[i - 1]);
            }
        }
        if is_space_char(c) {
            in_run = false;
        } else if in_run {
            let last = spans.len() - 1;
            let start = spans[last].0;
            spans.set(last, (start, i + 1));
            proof {
                let earlier = fields(before);
                assert(fields(now) == earlier.drop_last().push(earlier.last().push(c)));
                assert(chars@.subrange(start as int, i + 1) =~= chars@.subrange(
                    start as int,
                    i as int,
                ).push(c));
                assert forall|k: int| 0 <= k < spans@.len() implies (#[trigger] spans@[k]).0
                    <= spans@[k].1 <= i + 1 && chars@.subrange(
                    spans@[k].0 as int,
                    spans@[k].1 as int,
                ) == fields(now)[k] by {
                    if k < last {
                        assert(spans@[k] == old_spans[k]);
                        assert(fields(now)[k] == earlier[k]);
                    }
                }
            }
        } else {
            spans.push((i, i + 1));
            in_run = true;
            proof {
                let earlier = fields(before);
                assert(fields(now) == earlier.push(seq![c]));
                assert(chars@.subrange(i as int, i + 1) =~= seq![c]);
                assert forall|k: int| 0 <= k < spans@.len() implies (#[trigger] spans@[k]).0
                    <= spans@[k].1 <= i + 1 && chars@.subrange(
                    spans@[k].0 as int,
                    spans@[k].1 as int,
                ) == fields(now)[k] by {
                    if k < old_spans.len() {
                        assert(spans@[k] == old_spans[k]);
                        assert(fields(now)[k] == earlier[k]);
                    }
                }
            }
        }
        i = i + 1;
    }
    proof {
        assert(chars@.take(i as int) =~= chars@);
    }
    spans
}

/// More digits never write a smaller number.
proof fn lemma_digits_grow(s: Seq<char>, n: int)
    requires
        all_digits(s),
        0 <= n <= s.len(),
    ensures
        digits_value(s.take(n)) <= digits_value(s),
    decreases s.len() - n,
{
    if n < s.len() {
        let longer = s.take(n + 1);
        assert(longer.drop_last() =~= s.take(n));
        assert(is_digit(s[n]));
        assert(longer.last() == s[n]);
        lemma_digits_grow(s, n + 1);
    } else {
        assert(s.take(n) =~= s);
    }
}

/// The size that the characters of `chars` from `from` to `to` give.
fn parse_size(chars: &Vec<char>, from: usize, to: usize) -> (size: u64)
    requires
        from <= to <= chars@.len(),
    ensures
        size == size_of(chars@.subrange(from as int, to as int)),
{
    let ghost field = chars@.subrange(from as int, to as int);
    let start = if from < to && chars[from] == '+' {
        from + 1
    } else {
        from
    };
    let ghost digits = chars@.subrange(start as int, to as int);
    proof {
        if from < to {
            assert(field[0] == chars@[from as int]);
        }
        if start > from {
            assert(field.skip(1) =~= digits);
        } else {
            assert(field =~= digits);
        }
    }
    if start == to {
        return 0;
    }
    let mut value: u64 = 0;
    let mut i: usize = start;
    proof {
        assert(digits.take(0) =~= Seq::<char>::empty());
    }
    while i < to
        invariant
            from <= start <= i <= to <= chars@.len(),
            start < to,
            digits == chars@.subrange(start as int, to as int),
            size_of(chars@.subrange(from as int, to as int)) == if all_digits(digits)
                && digits_value(digits) <= u64::MAX {
                digits_value(digits) as u64
            } else {
                0
            },
            all_digits(digits.take(i - start)),
            value == digits_value(digits.take(i - start)),
        decreases to - i,
    {
        let n = chars[i] as u32;
        let ghost seen = digits.take(i - start);
        let ghost longer = digits.take(i - start + 1);
        proof {
            assert(longer.drop_last() =~= seen);
            assert(longer.last() == chars@[i as int]);
            assert(digits[i - start] == chars@[i as int]);
        }
        if n < 48 || n > 57 {
            proof {
                assert(!is_digit(digits[i - start]));
            }
            return 0;
        }
        let digit = (n - 48) as u64;
        if value > (u64::MAX - digit) / 10 {
            proof {
                assert(all_digits(longer)) by {
                    assert forall|k: int| 0 <= k < longer.len() implies is_digit(
                        #[trigger] longer[k],
                    ) by {
                        if k < seen.len() {
                            assert(longer[k] == seen[k]);
                        }
                    }
                }
                assert(digits_value(longer) > u64::MAX);
                if all_digits(digits) {
                    lemma_digits_grow(digits, i - start + 1);
                }
            }
            return 0;
        }
        value = value * 10 + digit;
        proof {
            assert forall|k: int| 0 <= k < longer.len() implies is_digit(#[trigger] longer[k]) by {
                if k < seen.len() {
                    assert(longer[k] == seen[k]);
                }
            }
        }
        i = i + 1;
    }
    proof {
        assert(digits.take(to - start) =~= digits);
    }
    value
}

/// Whether `name` ends in `.zip`.
pub fn ends_in_zip(name: &str) -> (yes: bool)
    ensures
        yes == is_zip_name(name@),
{
    let chars = chars_of(name);
    let n = chars.len();
    let yes = n >= 4 && chars[n - 4] == '.' && chars[n - 3] == 'z' && chars[n - 2] == 'i'
        && chars[n - 1] == 'p';
    proof {
        if n >= 4 {
            let tail = name@.subrange(n - 4, n as int);
            assert(tail[0] == chars@[n - 4]);
            assert(tail[1] == chars@[n - 3]);
            assert(tail[2] == chars@[n - 2]);
            assert(tail[3] == chars@[n - 1]);
            if yes {
                assert(tail =~= seq!['.', 'z', 'i', 'p']);
            }
        }
    }
    yes
}

/// Reads one line of a listing, `modified` being taken for the date of the
/// file that it names. A line of fewer than nine fields names none.
pub fn parse_list_line(line: &str, modified: u128) -> (file: Option<RemoteFile>)
    ensures
        match file {
            Some(f) => file_of(line@, modified) == Some((f.name@, f.size, f.modified)),
            None => file_of(line@, modified) is None,
        },
{
    let chars = chars_of(line);
    let spans = field_spans(&chars);
    if spans.len() <= FIELDS_BEFORE_NAME {
        return None;
    }
    let ghost f = fields(line@);
    let size = parse_size(&chars, spans[SIZE_FIELD].0, spans[SIZE_FIELD].1);
    let mut name = String::new();
    let mut k: usize = FIELDS_BEFORE_NAME;
    proof {
        assert(f.subrange(FIELDS_BEFORE_NAME as int, k as int) =~= Seq::<Seq<char>>::empty());
        reveal_strlit(" ");
    }
    while k < spans.len()
        invariant
            FIELDS_BEFORE_NAME <= k <= spans@.len(),
            chars@ == line@,
            f == fields(line@),
            spans@.len() == f.len(),
            forall|j: int|
                0 <= j < spans@.len() ==> (#[trigger] spans@[j]).0 <= spans@[j].1 <= chars@.len()
                    && chars@.subrange(spans@[j].0 as int, spans@[j].1 as int) == f[j],
            name@ == joined(f.subrange(FIELDS_BEFORE_NAME as int, k as int)),
            " "@ == seq![' '],
        decreases spans@.len() - k,
    {
        let ghost had = f.subrange(FIELDS_BEFORE_NAME as int, k as int);
        let ghost has = f.subrange(FIELDS_BEFORE_NAME as int, k + 1);
        proof {
            assert(has.drop_last() =~= had);
            assert(has.last() == f[k as int]);
            assert(spans@[k as int].0 <= spans@[k as int].1);
        }
        if k > FIELDS_BEFORE_NAME {
            name.append(" ");
        }
        name.append(line.substring_char(spans[k].0, spans[k].1));
        proof {
            if k == FIELDS_BEFORE_NAME {
                assert(name@ =~= f[k as int]);
            } else {
                assert(name@ =~= joined(had) + seq![' '] + f[k as int]);
            }
        }
        k = k + 1;
    }
    proof {
        assert(f.subrange(FIELDS_BEFORE_NAME as int, f.len() as int) =~= f.skip(
            FIELDS_BEFORE_NAME as int,
        ));
    }
    Some(RemoteFile { name, size, modified })
}

/// The zip archive that one line of a listing names, `modified` being taken
/// for its date; nothing where the line names no file, or one whose name
/// does not end in `.zip`.
pub fn zip_candidate(line: &str, modified: u128) -> (file: Option<RemoteFile>)
    ensures
        match file {
            Some(f) => zip_file_of(line@, modified) == Some((f.name@, f.size, f.modified)),
            None => zip_file_of(line@, modified) is None,
        },
{
    match parse_list_line(line, modified) {
        Some(file) => {
            if ends_in_zip(file.name.as_str()) {
                Some(file)
            } else {
                None
            }
        },
        None => None,
    }
}

/// Whether `place` is where the newest of `files` stands: none is newer,
/// and none before it is as new.
pub open spec fn is_newest(files: Seq<RemoteFile>, place: int) -> bool {
    &&& 0 <= place < files.len()
    &&& forall|j: int| 0 <= j < files.len() ==> (#[trigger] files[j]).modified <= files[place].modified
    &&& forall|j: int| 0 <= j < place ==> (#[trigger] files[j]).modified < files[place].modified
}

/// Where the newest of `files` stands: the one changed last, and of several
/// changed at the same moment the first. Of no files none is the newest.
pub fn select_newest(files: &Vec<RemoteFile>) -> (place: Option<usize>)
    ensures
        match place {
            Some(p) => is_newest(files@, p as int),
            None => files@.len() == 0,
        },
{
    if files.len() == 0 {
        return None;
    }
    let mut best: usize = 0;
    let mut i: usize = 1;
    while i < files.len()
        invariant
            1 <= i <= files@.len(),
            is_newest(files@.take(i as int), best as int),
        decreases files@.len() - i,
    {
        let ghost seen = files@.take(i as int);
        let ghost more = files@.take(i + 1);
        proof {
            assert forall|j: int| 0 <= j < i implies more[j] == seen[j] by {}
        }
        if files[i].modified > files[best].modified {
            best = i;
        }
        proof {
            assert forall|j: int| 0 <= j < more.len() implies (#[trigger] more[j]).modified
                <= more[best as int].modified by {
                if j < i {
                    assert(seen[j].modified <= seen[best as int].modified || best == i);
                }
            }
        }
        i = i + 1;
    }
    proof {
        assert(files@.take(i as int) =~= files@);
    }
    Some(best)
}

} // verus!
