//! What the system says of its memory, line by line.

use vstd::prelude::*;

verus! {

/// A space, or one of the control characters that stand for one.
pub open spec fn is_space(c: u8) -> bool {
    c == 32 || 9 <= c <= 13
}

/// The place of the end of the line that goes on at `from`.
pub open spec fn line_end(b: Seq<u8>, from: int) -> int
    decreases b.len() - from,
{
    if from >= b.len() {
        b.len() as int
    } else if b[from] == 10 {
        from
    } else {
        line_end(b, from + 1)
    }
}

/// The first place from `from` on, and before `end`, where there is no space.
pub open spec fn word_start(b: Seq<u8>, from: int, end: int) -> int
    decreases end - from,
{
    if from >= end || !is_space(b[from]) {
        from
    } else {
        word_start(b, from + 1, end)
    }
}

/// The first place from `from` on, and before `end`, where there is a space.
pub open spec fn word_end(b: Seq<u8>, from: int, end: int) -> int
    decreases end - from,
{
    if from >= end || is_space(b[from]) {
        from
    } else {
        word_end(b, from + 1, end)
    }
}

/// The number that the digits stand for.
pub open spec fn digits_value(w: Seq<u8>) -> Option<nat>
    decreases w.len(),
{
    if w.len() == 0 {
        Some(0)
    } else {
        match digits_value(w.drop_last()) {
            Some(n) => if 48 <= w.last() <= 57 {
                Some((n * 10 + (w.last() - 48)) as nat)
            } else {
                None
            },
            None => None,
        }
    }
}

/// The number that a word stands for: digits, with a sign ahead of them if need be, and no more
/// than fit.
pub open spec fn word_number(w: Seq<u8>) -> Option<u64> {
    let d = if w.len() > 0 && w[0] == 43 {
        w.subrange(1, w.len() as int)
    } else {
        w
    };
    if d.len() == 0 {
        None
    } else {
        match digits_value(d) {
            Some(n) => if n <= u64::MAX {
                Some(n as u64)
            } else {
                None
            },
            None => None,
        }
    }
}

/// "MemAvailable:"
pub open spec fn available_label() -> Seq<u8> {
    seq![77u8, 101, 109, 65, 118, 97, 105, 108, 97, 98, 108, 101, 58]
}

/// "MemTotal:"
pub open spec fn total_label() -> Seq<u8> {
    seq![77u8, 101, 109, 84, 111, 116, 97, 108, 58]
}

/// The line from `from` to `end` begins with a label.
pub open spec fn labelled(b: Seq<u8>, from: int, end: int, label: Seq<u8>) -> bool {
    from + label.len() <= end && b.subrange(from, from + label.len()) == label
}

/// The first word from `from` on, before `end`.
pub open spec fn first_word(b: Seq<u8>, from: int, end: int) -> Seq<u8> {
    let a = word_start(b, from, end);
    b.subrange(a, word_end(b, a, end))
}

/// What is left and what there is of memory, in kilobytes, after the lines from `from` on were
/// read; `None` where a line with a label has no word, or one of the two is not found.
pub open spec fn scanned(
    b: Seq<u8>,
    from: int,
    available: Option<u64>,
    total: Option<u64>,
) -> Option<(u64, u64)>
    decreases b.len() + 1 - from,
{
    if available is Some && total is Some {
        Some((available->0, total->0))
    } else if from >= b.len() {
        None
    } else {
        let end = line_end(b, from);
        if end < from || end > b.len() {
            None
        } else if labelled(b, from, end, available_label()) {
            let w = first_word(b, from + 13, end);
            if w.len() == 0 {
                None
            } else {
                scanned(b, end + 1, word_number(w), total)
            }
        } else if labelled(b, from, end, total_label()) {
            let w = first_word(b, from + 9, end);
            if w.len() == 0 {
                None
            } else {
                scanned(b, end + 1, available, word_number(w))
            }
        } else {
            scanned(b, end + 1, available, total)
        }
    }
}

fn find_line_end(b: &Vec<u8>, from: usize) -> (r: usize)
    requires
        from <= b@.len(),
    ensures
        r == line_end(b@, from as int),
        from <= r <= b@.len(),
{
    let mut i: usize = from;
    while i < b.len() && b[i] != 10
        invariant
            from <= i <= b.len(),
            line_end(b@, from as int) == line_end(b@, i as int),
        decreases b.len() - i,
    {
        i += 1;
    }
    i
}

fn has_label(b: &Vec<u8>, from: usize, end: usize, label: &Vec<u8>) -> (r: bool)
    requires
        from <= end <= b@.len(),
    ensures
        r == labelled(b@, from as int, end as int, label@),
{
    if label.len() > end - from {
        return false;
    }
    let mut i: usize = 0;
    while i < label.len()
        invariant
            i <= label.len(),
            from + label.len() <= end <= b.len(),
            forall|j: int| 0 <= j < i ==> b@[from + j] == label@[j],
        decreases label.len() - i,
    {
        if b[from + i] != label[i] {
            assert(b@.subrange(from as int, from + label@.len())[i as int] != label@[i as int]);
            return false;
        }
        i += 1;
    }
    assert(b@.subrange(from as int, from + label@.len()) =~= label@);
    true
}

/// The bounds of the first word.
fn find_word(b: &Vec<u8>, from: usize, end: usize) -> (r: (usize, usize))
    requires
        from <= end <= b@.len(),
    ensures
        r.0 == word_start(b@, from as int, end as int),
        r.1 == word_end(b@, r.0 as int, end as int),
        from <= r.0 <= r.1 <= end,
{
    let mut a: usize = from;
    while a < end && (b[a] == 32 || (9 <= b[a] && b[a] <= 13))
        invariant
            from <= a <= end <= b.len(),
            word_start(b@, from as int, end as int) == word_start(b@, a as int, end as int),
        decreases end - a,
    {
        a += 1;
    }
    let mut z: usize = a;
    while z < end && !(b[z] == 32 || (9 <= b[z] && b[z] <= 13))
        invariant
            a <= z <= end <= b.len(),
            word_end(b@, a as int, end as int) == word_end(b@, z as int, end as int),
        decreases end - z,
    {
        z += 1;
    }
    (a, z)
}

/// A part of the digits that is no number makes all of them none, and a larger part stands for a
/// larger number.
proof fn lemma_digits(w: Seq<u8>, n: int)
    requires
        0 <= n <= w.len(),
    ensures
        digits_value(w.subrange(0, n)) is None ==> digits_value(w) is None,
        digits_value(w) is Some ==> digits_value(w.subrange(0, n)) is Some && digits_value(
            w.subrange(0, n),
        )->0 <= digits_value(w)->0,
    decreases w.len() - n,
{
    if n < w.len() {
        lemma_digits(w, n + 1);
        assert(w.subrange(0, n + 1).drop_last() =~= w.subrange(0, n));
    } else {
        assert(w.subrange(0, n) =~= w);
    }
}

fn read_number(b: &Vec<u8>, from: usize, end: usize) -> (r: Option<u64>)
    requires
        from <= end <= b@.len(),
    ensures
        r == word_number(b@.subrange(from as int, end as int)),
{
    let ghost w = b@.subrange(from as int, end as int);
    let start: usize = if from < end && b[from] == 43 {
        from + 1
    } else {
        from
    };
    let ghost d = b@.subrange(start as int, end as int);
    proof {
        if start > from {
            assert(w.subrange(1, w.len() as int) =~= d);
        } else {
            assert(w =~= d);
        }
    }
    if start == end {
        return None;
    }
    let mut n: u64 = 0;
    let mut i: usize = start;
    assert(d.subrange(0, 0) =~= Seq::<u8>::empty());
    while i < end
        invariant
            start <= i <= end <= b.len(),
            d == b@.subrange(start as int, end as int),
            digits_value(d.subrange(0, i - start)) == Some(n as nat),
            word_number(b@.subrange(from as int, end as int)) == (if d.len() == 0 {
                None::<u64>
            } else {
                match digits_value(d) {
                    Some(n) => if n <= u64::MAX {
                        Some(n as u64)
                    } else {
                        None
                    },
                    None => None,
                }
            }),
        decreases end - i,
    {
        let c: u8 = b[i];
        let ghost k = i - start;
        proof {
            assert(d.subrange(0, k + 1).drop_last() =~= d.subrange(0, k));
            assert(d.subrange(0, k + 1).last() == c);
            lemma_digits(d, k + 1);
        }
        if c < 48 || c > 57 {
            return None;
        }
        let x: u64 = (c - 48) as u64;
        if n > (u64::MAX - x) / 10 {
            return None;
        }
        n = n * 10 + x;
        i += 1;
    }
    assert(d.subrange(0, i - start) =~= d);
    Some(n)
}

/// What is left and what there is of memory, in bytes, going by lines of labels and numbers of
/// kilobytes. `None` where one of the two is missing, is no number or does not fit.
pub fn parse_meminfo_snapshot(meminfo: &Vec<u8>) -> (r: Option<(u64, u64)>)
    ensures
        match scanned(meminfo@, 0, None, None) {
            Some(p) => if p.0 <= u64::MAX / 1024 && p.1 <= u64::MAX / 1024 {
                r == Some(((p.0 * 1024) as u64, (p.1 * 1024) as u64))
            } else {
                r is None
            },
            None => r is None,
        },
{
    let ghost b = meminfo@;
    let a_label: Vec<u8> = vec![77u8, 101, 109, 65, 118, 97, 105, 108, 97, 98, 108, 101, 58];
    let t_label: Vec<u8> = vec![77u8, 101, 109, 84, 111, 116, 97, 108, 58];
    assert(a_label@ =~= available_label());
    assert(t_label@ =~= total_label());
    let mut available: Option<u64> = None;
    let mut total: Option<u64> = None;
    let mut from: usize = 0;
    while from < meminfo.len() && !(available.is_some() && total.is_some())
        invariant
            b == meminfo@,
            a_label@ == available_label(),
            t_label@ == total_label(),
            from <= meminfo.len(),
            scanned(b, 0, None, None) == scanned(b, from as int, available, total),
        decreases meminfo.len() - from,
    {
        let end: usize = find_line_end(meminfo, from);
        if has_label(meminfo, from, end, &a_label) {
            let (s, e) = find_word(meminfo, from + 13, end);
            if s == e {
                return None;
            }
            available = read_number(meminfo, s, e);
        } else if has_label(meminfo, from, end, &t_label) {
            let (s, e) = find_word(meminfo, from + 9, end);
            if s == e {
                return None;
            }
            total = read_number(meminfo, s, e);
        }
        if end == meminfo.len() {
            from = end;
            assert(scanned(b, end + 1, available, total) == scanned(
                b,
                end as int,
                available,
                total,
            ));
        } else {
            from = end + 1;
        }
    }
    match (available, total) {
        (Some(a), Some(t)) => {
            if a <= u64::MAX / 1024 && t <= u64::MAX / 1024 {
                Some((a * 1024, t * 1024))
            } else {
                None
            }
        },
        _ => None,
    }
}

/// The labels are those of the lines that tell what is available and what there is in all.
pub proof fn law_labels(i: int)
    ensures
        available_label().len() == "MemAvailable:"@.len(),
        total_label().len() == "MemTotal:"@.len(),
        0 <= i < 13 ==> available_label()[i] as int == "MemAvailable:"@[i] as int,
        0 <= i < 9 ==> total_label()[i] as int == "MemTotal:"@[i] as int,
{
    reveal_strlit("MemAvailable:");
    reveal_strlit("MemTotal:");
}

/// A number is read digit by digit, each new one worth one and those before ten times as much; a
/// plus may stand in front, and anything else makes it none.
pub proof fn law_numbers_are_decimal(w: Seq<u8>, c: u8)
    ensures
        digits_value(Seq::empty()) == Some(0nat),
        digits_value(w.push(c)) == if 48 <= c <= 57 && digits_value(w) is Some {
            Some((10 * digits_value(w)->0 + (c - 48)) as nat)
        } else {
            None
        },
        w.len() > 0 && w[0] != 43 && digits_value(w) is Some && digits_value(w)->0 <= u64::MAX
            ==> word_number(w) == Some(digits_value(w)->0 as u64),
        w.len() > 0 && w[0] != 43 ==> word_number(seq![43u8] + w) == word_number(w),
        word_number(Seq::empty()) is None,
        digits_value(w) is None && (w.len() == 0 || w[0] != 43) ==> word_number(w) is None,
{
    assert(w.push(c).drop_last() =~= w);
    let p = seq![43u8] + w;
    assert(p.subrange(1, p.len() as int) =~= w);
}

proof fn lemma_line_end(b: Seq<u8>, from: int, e: int)
    requires
        0 <= from <= e <= b.len(),
        forall|i: int| from <= i < e ==> #[trigger] b[i] != 10,
        e < b.len() ==> b[e] == 10,
    ensures
        line_end(b, from) == e,
    decreases e - from,
{
    if from < e {
        assert(b[from] != 10);
        lemma_line_end(b, from + 1, e);
    }
}

proof fn lemma_word(b: Seq<u8>, from: int, x: int, y: int, e: int)
    requires
        from <= x < y <= e,
        forall|i: int| from <= i < x ==> is_space(#[trigger] b[i]),
        forall|i: int| x <= i < y ==> !is_space(#[trigger] b[i]),
        y < e ==> is_space(b[y]),
    ensures
        word_start(b, from, e) == x,
        word_end(b, x, e) == y,
    decreases y - from,
{
    if from < x {
        assert(is_space(b[from]));
        lemma_word(b, from + 1, x, y, e);
    } else {
        lemma_word_end(b, x, y, e);
    }
}

proof fn lemma_word_end(b: Seq<u8>, x: int, y: int, e: int)
    requires
        x <= y <= e,
        forall|i: int| x <= i < y ==> !is_space(#[trigger] b[i]),
        y < e ==> is_space(b[y]),
    ensures
        word_end(b, x, e) == y,
    decreases y - x,
{
    if x < y {
        assert(!is_space(b[x]));
        lemma_word_end(b, x + 1, y, e);
    }
}

/// The text is read line by line. A line with one of the labels gives the number that the first word
/// behind it is, and every other line is passed over.
pub proof fn law_lines_are_read(
    b: Seq<u8>,
    from: int,
    x: int,
    y: int,
    e: int,
    a: Option<u64>,
    t: Option<u64>,
)
    requires
        0 <= from <= e <= b.len(),
        from < b.len(),
        forall|i: int| from <= i < e ==> #[trigger] b[i] != 10,
        e < b.len() ==> b[e] == 10,
        a is None || t is None,
    ensures
        !labelled(b, from, e, available_label()) && !labelled(b, from, e, total_label())
            ==> scanned(b, from, a, t) == scanned(b, e + 1, a, t),
        labelled(b, from, e, available_label()) && from + 13 <= x < y <= e && (forall|i: int|
            from + 13 <= i < x ==> is_space(#[trigger] b[i])) && (forall|i: int|
            x <= i < y ==> !is_space(#[trigger] b[i])) && (y < e ==> is_space(b[y])) ==> scanned(
            b,
            from,
            a,
            t,
        ) == scanned(b, e + 1, word_number(b.subrange(x, y)), t),
        labelled(b, from, e, total_label()) && from + 9 <= x < y <= e && (forall|i: int|
            from + 9 <= i < x ==> is_space(#[trigger] b[i])) && (forall|i: int|
            x <= i < y ==> !is_space(#[trigger] b[i])) && (y < e ==> is_space(b[y])) ==> scanned(
            b,
            from,
            a,
            t,
        ) == scanned(b, e + 1, a, word_number(b.subrange(x, y))),
        from + 13 <= e && b.subrange(from, from + 13) == available_label() ==> !labelled(
            b,
            from,
            e,
            total_label(),
        ),
{
    lemma_line_end(b, from, e);
    if from + 13 <= x < y <= e && (forall|i: int|
        from + 13 <= i < x ==> is_space(#[trigger] b[i])) && (forall|i: int|
        x <= i < y ==> !is_space(#[trigger] b[i])) && (y < e ==> is_space(b[y])) {
        lemma_word(b, from + 13, x, y, e);
    }
    if from + 9 <= x < y <= e && (forall|i: int|
        from + 9 <= i < x ==> is_space(#[trigger] b[i])) && (forall|i: int|
        x <= i < y ==> !is_space(#[trigger] b[i])) && (y < e ==> is_space(b[y])) {
        lemma_word(b, from + 9, x, y, e);
    }
    if from + 13 <= e && b.subrange(from, from + 13) == available_label() && labelled(
        b,
        from,
        e,
        total_label(),
    ) {
        assert(b.subrange(from, from + 13)[3] == 65);
        assert(b.subrange(from, from + 9)[3] == 84);
    }
}

} // verus!
