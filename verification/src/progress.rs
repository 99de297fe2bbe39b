//! What the user sees of a run.
use vstd::prelude::*;

use crate::path;
use crate::sync::SyncSummary;
use crate::text;
use crate::text::chars_of;
use crate::text::glue;
use crate::text::glue3;
use crate::text::show_u64;
use crate::text::string_of;

verus! {

/// How many bytes a shortened path should take.
pub const MAX_SHOWN: usize = 40;

/// How many bytes `c` takes in UTF-8.
pub open spec fn char_bytes(c: char) -> nat {
    if '\u{80}' > c {
        1
    } else if '\u{800}' > c {
        2
    } else if '\u{10000}' > c {
        3
    } else {
        4
    }
}

/// How many bytes `s` takes in UTF-8.
pub open spec fn byte_len(s: Seq<char>) -> nat
    decreases s.len(),
{
    if s.len() == 0 {
        0
    } else {
        byte_len(s.drop_last()) + char_bytes(s.last())
    }
}

/// How many whole characters of `s` fit into `room` bytes.
pub open spec fn fitting(s: Seq<char>, room: nat) -> nat
    decreases s.len(),
{
    if byte_len(s) <= room {
        s.len()
    } else {
        fitting(s.drop_last(), room)
    }
}

/// The name that a path ends in, or nothing.
pub open spec fn shown_name(rel: Seq<char>) -> Seq<char> {
    match path::file_name(rel) {
        Some(n) => n,
        None => Seq::empty(),
    }
}

/// `rel` as it is shown beside a bar: a long path loses its middle and keeps its name.
pub open spec fn shortened(rel: Seq<char>) -> Seq<char> {
    if byte_len(rel) <= MAX_SHOWN {
        rel
    } else {
        let name = shown_name(rel);
        let room = if byte_len(name) + 3 <= MAX_SHOWN {
            (MAX_SHOWN - (byte_len(name) + 3)) as nat
        } else {
            0
        };
        rel.take(fitting(rel, room) as int) + "..."@ + name
    }
}

proof fn lemma_byte_len_grows(s: Seq<char>, k: int)
    requires
        0 <= k <= s.len(),
    ensures
        byte_len(s.take(k)) <= byte_len(s),
    decreases s.len() - k,
{
    if k < s.len() {
        lemma_byte_len_grows(s.drop_last(), k);
        assert(s.drop_last().take(k) =~= s.take(k));
    } else {
        assert(s.take(k) =~= s);
    }
}

proof fn lemma_fitting(s: Seq<char>, room: nat, k: int)
    requires
        0 <= k <= s.len(),
        byte_len(s.take(k)) <= room,
        k < s.len() ==> byte_len(s.take(k + 1)) > room,
    ensures
        fitting(s, room) == k,
    decreases s.len(),
{
    if k == s.len() {
        assert(s.take(k) =~= s);
    } else {
        lemma_byte_len_grows(s, k + 1);
        let t = s.drop_last();
        assert(t.take(k) =~= s.take(k));
        if k < t.len() {
            assert(t.take(k + 1) =~= s.take(k + 1));
        }
        lemma_fitting(t, room, k);
    }
}

/// How many characters fit into `room` bytes, and how many bytes they take.
fn measure(chars: &Vec<char>, room: usize) -> (r: (usize, usize))
    requires
        room <= 0x1000,
    ensures
        r.0 == fitting(chars@, room as nat),
        r.0 <= chars@.len(),
        r.1 == byte_len(chars@.take(r.0 as int)),
        r.1 <= room,
{
    let mut k: usize = 0;
    let mut bytes: usize = 0;
    assert(chars@.take(0).len() == 0);
    while k < chars.len()
        invariant
            k <= chars@.len(),
            bytes == byte_len(chars@.take(k as int)),
            bytes <= room <= 0x1000,
        decreases chars@.len() - k,
    {
        let c = chars[k];
        let b: usize = if '\u{80}' > c {
            1
        } else if '\u{800}' > c {
            2
        } else if '\u{10000}' > c {
            3
        } else {
            4
        };
        proof {
            assert(chars@.take(k + 1).drop_last() =~= chars@.take(k as int));
            assert(chars@.take(k + 1).last() == c);
        }
        if bytes + b > room {
            proof {
                lemma_fitting(chars@, room as nat, k as int);
            }
            return (k, bytes);
        }
        bytes = bytes + b;
        k = k + 1;
    }
    proof {
        lemma_fitting(chars@, room as nat, k as int);
    }
    (k, bytes)
}

/// `rel` as it is shown beside a bar.
pub fn shorten(rel: &str) -> (r: String)
    ensures
        r@ == shortened(rel@),
{
    let chars = chars_of(rel);
    let (k, _) = measure(&chars, MAX_SHOWN);
    proof {
        assert(chars@.take(chars@.len() as int) =~= chars@);
        lemma_fits_whole(chars@, MAX_SHOWN as nat);
    }
    if k == chars.len() {
        return rel.to_owned();
    }
    let name = match path::name_of(rel) {
        Some(n) => n,
        None => String::new(),
    };
    assert(name@ =~= shown_name(rel@));
    let letters = chars_of(name.as_str());
    let (n, taken) = measure(&letters, 37);
    proof {
        assert(letters@.take(letters@.len() as int) =~= letters@);
        lemma_fits_whole(letters@, 37);
    }
    let room: usize = if n == letters.len() {
        37 - taken
    } else {
        0
    };
    let (head, _) = measure(&chars, room);
    let start = string_of(&chars, 0, head);
    assert(chars@.subrange(0, head as int) =~= chars@.take(head as int));
    glue3(start.as_str(), "...", name.as_str())
}

proof fn lemma_fits_whole(s: Seq<char>, room: nat)
    ensures
        fitting(s, room) == s.len() <==> byte_len(s) <= room,
    decreases s.len(),
{
    if byte_len(s) > room && s.len() > 0 {
        lemma_fitting_bound(s.drop_last(), room);
    }
}

proof fn lemma_fitting_bound(s: Seq<char>, room: nat)
    ensures
        fitting(s, room) <= s.len(),
    decreases s.len(),
{
    if byte_len(s) > room && s.len() > 0 {
        lemma_fitting_bound(s.drop_last(), room);
    }
}

/// The whole number nearest to `a / d`, the even one of two.
pub open spec fn nearest(a: nat, d: nat) -> nat
    recommends
        d > 0,
{
    let q = a / d;
    let r = a % d;
    if 2 * r < d || (2 * r == d && q % 2 == 0) {
        q
    } else {
        q + 1
    }
}

/// How far apart the numbers near `n` are that have at most 53 significant binary digits.
pub open spec fn spacing(n: nat) -> nat
    decreases n,
{
    if n < 0x20_0000_0000_0000 {
        1
    } else {
        2 * spacing(n / 2)
    }
}

/// `n` rounded to 53 significant binary digits.
pub open spec fn rounded(n: nat) -> nat {
    nearest(n, spacing(n)) * spacing(n)
}

/// The unit for `v`: how many times it can be divided by 1024, five times at most.
pub open spec fn unit_of(v: nat) -> nat {
    if v < 0x400 {
        0
    } else if v < 0x10_0000 {
        1
    } else if v < 0x4000_0000 {
        2
    } else if v < 0x100_0000_0000 {
        3
    } else if v < 0x4_0000_0000_0000 {
        4
    } else {
        5
    }
}

/// How many bytes a unit is.
pub open spec fn unit_size(i: nat) -> nat {
    if i == 0 {
        1
    } else if i == 1 {
        0x400
    } else if i == 2 {
        0x10_0000
    } else if i == 3 {
        0x4000_0000
    } else if i == 4 {
        0x100_0000_0000
    } else {
        0x4_0000_0000_0000
    }
}

/// The sign for a unit.
pub open spec fn unit_sign(i: nat) -> Seq<char> {
    if i == 0 {
        "B"@
    } else if i == 1 {
        "KiB"@
    } else if i == 2 {
        "MiB"@
    } else if i == 3 {
        "GiB"@
    } else if i == 4 {
        "TiB"@
    } else {
        "PiB"@
    }
}

/// A number of tenths, with a point.
pub open spec fn with_tenth(t: nat) -> Seq<char> {
    text::decimal(t / 10) + "."@ + text::decimal(t % 10)
}

/// `n` bytes for reading: whole bytes, or tenths of the largest unit that does not exceed them.
pub open spec fn readable(n: nat) -> Seq<char> {
    let v = rounded(n);
    let i = unit_of(v);
    if i == 0 {
        text::decimal(n) + " "@ + unit_sign(0)
    } else {
        with_tenth(nearest(v * 10, unit_size(i))) + " "@ + unit_sign(i)
    }
}

proof fn lemma_spacing(n: nat)
    requires
        n < 0x1_0000_0000_0000_0000,
    ensures
        1 <= spacing(n) <= 0x800,
        n >= 0x20_0000_0000_0000 ==> spacing(n) <= n,
    decreases n,
{
    reveal_with_fuel(spacing, 13);
}

fn step_between(n: u64) -> (r: u64)
    ensures
        r == spacing(n as nat),
        1 <= r <= 0x800,
    decreases n,
{
    proof {
        lemma_spacing(n as nat);
    }
    if n < 0x20_0000_0000_0000 {
        1
    } else {
        let half = step_between(n / 2);
        assert(spacing(n as nat) == 2 * spacing((n / 2) as nat));
        2 * half
    }
}

fn nearest_of(a: u128, d: u128) -> (r: u128)
    requires
        0 < d < 0x1_0000_0000_0000_0000,
        a < 0x1_0000_0000_0000_0000_0000_0000,
    ensures
        r == nearest(a as nat, d as nat),
        r <= a + 1,
        r * d <= a + d,
{
    let q: u128 = a / d;
    let m: u128 = a % d;
    proof {
        assert(q <= a && q * d <= a && (q + 1) * d == q * d + d) by (nonlinear_arith)
            requires
                q == a / d,
                d > 0,
        ;
    }
    if 2 * m < d || (2 * m == d && q % 2 == 0) {
        q
    } else {
        q + 1
    }
}

/// `n` bytes for reading.
pub fn human_bytes(n: u64) -> (r: String)
    ensures
        r@ == readable(n as nat),
{
    let s = step_between(n);
    let q = nearest_of(n as u128, s as u128);
    let v: u128 = q * (s as u128);
    let (size, sign): (u128, &str) = if v < 0x400 {
        let mut out = show_u64(n);
        out.append(" ");
        out.append("B");
        return out;
    } else if v < 0x10_0000 {
        (0x400, "KiB")
    } else if v < 0x4000_0000 {
        (0x10_0000, "MiB")
    } else if v < 0x100_0000_0000 {
        (0x4000_0000, "GiB")
    } else if v < 0x4_0000_0000_0000 {
        (0x100_0000_0000, "TiB")
    } else {
        (0x4_0000_0000_0000, "PiB")
    };
    let t = nearest_of(v * 10, size);
    proof {
        lemma_tenths_small(v as nat, size as nat, t as nat);
    }
    let whole: u64 = (t / 10) as u64;
    let tenth: u64 = (t % 10) as u64;
    let mut out = glue3(show_u64(whole).as_str(), ".", show_u64(tenth).as_str());
    out.append(" ");
    out.append(sign);
    out
}

proof fn lemma_tenths_small(v: nat, size: nat, t: nat)
    requires
        v <= 0x2_0000_0000_0000_0000,
        0x400 <= size,
        t == nearest(v * 10, size),
    ensures
        t / 10 <= u64::MAX,
{
    assert((v * 10) / size <= (v * 10) / 0x400) by (nonlinear_arith)
        requires
            0x400 <= size,
    ;
}

/// The report after a run: what was done, how much data it took, and how long. `saved` is the
/// percentage of bytes saved, `time` the time taken, and `speed` the bytes per second.
pub open spec fn summary_report(
    summary: &SyncSummary,
    saved: Seq<char>,
    time: Seq<char>,
    speed: u64,
) -> Seq<Seq<char>> {
    if summary.dry_run {
        Seq::empty()
    } else {
        seq![
            "✓ Sync complete ("@ + summary.direction_label@ + ")"@,
            "  Files:    "@ + text::decimal(summary.files_transferred as nat) + " transferred, "@
                + text::decimal(summary.files_deleted as nat) + " deleted, "@ + text::decimal(
                summary.files_unchanged as nat,
            ) + " unchanged"@,
            "  Data:     "@ + readable(summary.total_bytes as nat) + " changed → "@ + readable(
                summary.bytes_transferred as nat,
            ) + " sent ("@ + saved + "% saved by delta+zstd)"@,
            "  Time:     "@ + time + "    Avg: "@ + readable(speed as nat) + "/s"@,
        ] + if summary.symlinks_skipped > 0 {
            seq![
                "⚠ "@ + text::decimal(summary.symlinks_skipped as nat)
                    + " symlinks skipped (not supported in v1)"@,
            ]
        } else {
            Seq::empty()
        }
    }
}

/// The report after a run, line by line.
pub fn summary_lines(summary: &SyncSummary, saved: &str, time: &str, speed: u64) -> (r: Vec<String>)
    ensures
        text::views(r@) == summary_report(summary, saved@, time@, speed),
{
    let mut out: Vec<String> = Vec::new();
    if summary.dry_run {
        assert(text::views(out@) =~= Seq::<Seq<char>>::empty());
        return out;
    }
    let first = glue3("✓ Sync complete (", summary.direction_label, ")");
    let mut files = glue("  Files:    ", show_u64(summary.files_transferred as u64).as_str());
    files.append(" transferred, ");
    files.append(show_u64(summary.files_deleted as u64).as_str());
    files.append(" deleted, ");
    files.append(show_u64(summary.files_unchanged as u64).as_str());
    files.append(" unchanged");
    let mut data = glue("  Data:     ", human_bytes(summary.total_bytes).as_str());
    data.append(" changed → ");
    data.append(human_bytes(summary.bytes_transferred).as_str());
    data.append(" sent (");
    data.append(saved);
    data.append("% saved by delta+zstd)");
    let mut took = glue3("  Time:     ", time, "    Avg: ");
    took.append(human_bytes(speed).as_str());
    took.append("/s");
    out.push(first);
    out.push(files);
    out.push(data);
    out.push(took);
    if summary.symlinks_skipped > 0 {
        out.push(
            glue3(
                "⚠ ",
                show_u64(summary.symlinks_skipped as u64).as_str(),
                " symlinks skipped (not supported in v1)",
            ),
        );
    }
    assert(text::views(out@) =~= summary_report(summary, saved@, time@, speed));
    out
}


/// Fewer than 1024 bytes are shown to the byte.
pub proof fn law_few_bytes_are_shown_exactly(n: nat)
    requires
        n < 0x400,
    ensures
        readable(n) == text::decimal(n) + " "@ + "B"@,
{
    lemma_small_is_kept(n);
}

proof fn lemma_small_is_kept(n: nat)
    requires
        n < 0x20_0000_0000_0000,
    ensures
        rounded(n) == n,
{
    assert(spacing(n) == 1);
    assert(nearest(n, 1) == n) by {
        assert(n / 1 == n && n % 1 == 0);
    }
}

/// The rounded number is within half a unit of the exact one.
proof fn lemma_nearest_is_near(a: nat, d: nat)
    requires
        d > 0,
    ensures
        2 * (nearest(a, d) * d) <= 2 * a + d,
        2 * a <= 2 * (nearest(a, d) * d) + d,
        2 * (nearest(a, d) * d) == 2 * a + d || 2 * a == 2 * (nearest(a, d) * d) + d ==> nearest(
            a,
            d,
        ) % 2 == 0,
{
    let q = a / d;
    let r = a % d;
    assert(a == q * d + r && 0 <= r < d && (q + 1) * d == q * d + d) by (nonlinear_arith)
        requires
            q == a / d,
            r == a % d,
            d > 0,
    ;
}

/// More bytes are shown in the largest unit that they reach, in tenths of it, rounded to the nearest
/// tenth, the even one of two: `t` tenths. Numbers of up to 53 binary digits are not rounded before
/// that.
pub proof fn law_many_bytes_are_shown_in_tenths(n: nat, size: nat, sign: Seq<char>) -> (t: nat)
    requires
        (size == 0x400 && sign == "KiB"@) || (size == 0x10_0000 && sign == "MiB"@) || (size
            == 0x4000_0000 && sign == "GiB"@) || (size == 0x100_0000_0000 && sign == "TiB"@) || (size
            == 0x4_0000_0000_0000 && sign == "PiB"@),
        size <= rounded(n),
        rounded(n) < 0x400 * size || sign == "PiB"@,
    ensures
        readable(n) == text::decimal(t / 10) + "."@ + text::decimal(t % 10) + " "@ + sign,
        2 * (t * size) <= 20 * rounded(n) + size,
        20 * rounded(n) <= 2 * (t * size) + size,
        2 * (t * size) == 20 * rounded(n) + size || 20 * rounded(n) == 2 * (t * size) + size ==> t
            % 2 == 0,
{
    let t = nearest(rounded(n) * 10, size);
    lemma_nearest_is_near(rounded(n) * 10, size);
    reveal_strlit("KiB");
    reveal_strlit("MiB");
    reveal_strlit("GiB");
    reveal_strlit("TiB");
    reveal_strlit("PiB");
    assert("KiB"@[0] == 'K' && "MiB"@[0] == 'M' && "GiB"@[0] == 'G' && "TiB"@[0] == 'T'
        && "PiB"@[0] == 'P');
    t
}

/// Numbers of up to 53 binary digits are shown for what they are.
pub proof fn law_numbers_of_53_digits_are_kept(n: nat)
    requires
        n < 0x20_0000_0000_0000,
    ensures
        rounded(n) == n,
{
    lemma_small_is_kept(n);
}

/// Numbers of more than 53 binary digits are first rounded to that many: to a multiple of the
/// spacing, the even one of two, and by half of the spacing at most. The number holds the spacing at
/// least 2 to the 52nd times, and less than 2 to the 53rd.
pub proof fn law_large_numbers_are_rounded_to_53_digits(n: nat)
    requires
        0x20_0000_0000_0000 <= n < 0x1_0000_0000_0000_0000,
    ensures
        spacing(n) * 0x10_0000_0000_0000 <= n < spacing(n) * 0x20_0000_0000_0000,
        rounded(n) % spacing(n) == 0,
        2 * rounded(n) <= 2 * n + spacing(n),
        2 * n <= 2 * rounded(n) + spacing(n),
        2 * rounded(n) == 2 * n + spacing(n) || 2 * n == 2 * rounded(n) + spacing(n) ==> nearest(
            n,
            spacing(n),
        ) % 2 == 0,
{
    lemma_spacing_fits(n);
    lemma_spacing(n);
    lemma_nearest_is_near(n, spacing(n));
    let q = nearest(n, spacing(n));
    let s = spacing(n);
    assert((q * s) % s == 0) by (nonlinear_arith)
        requires
            s > 0,
            q >= 0,
    ;
}

proof fn lemma_spacing_fits(n: nat)
    requires
        n >= 0x20_0000_0000_0000,
    ensures
        spacing(n) * 0x10_0000_0000_0000 <= n < spacing(n) * 0x20_0000_0000_0000,
    decreases n,
{
    let h = n / 2;
    if h >= 0x20_0000_0000_0000 {
        lemma_spacing_fits(h);
    } else {
        assert(spacing(h) == 1);
    }
    assert(spacing(n) == 2 * spacing(h));
}

/// A character takes one to four bytes, more the further back it stands in the order of characters.
pub proof fn law_bytes_of_a_character(s: Seq<char>, c: char)
    ensures
        byte_len(Seq::empty()) == 0,
        c as int <= 0x7f ==> byte_len(s.push(c)) == byte_len(s) + 1,
        0x80 <= c as int <= 0x7ff ==> byte_len(s.push(c)) == byte_len(s) + 2,
        0x800 <= c as int <= 0xffff ==> byte_len(s.push(c)) == byte_len(s) + 3,
        0x1_0000 <= c as int ==> byte_len(s.push(c)) == byte_len(s) + 4,
{
    assert(s.push(c).drop_last() =~= s);
}

proof fn lemma_what_fits(s: Seq<char>, room: nat)
    ensures
        fitting(s, room) <= s.len(),
        byte_len(s.take(fitting(s, room) as int)) <= room,
        fitting(s, room) < s.len() ==> byte_len(s.take(fitting(s, room) as int + 1)) > room,
    decreases s.len(),
{
    assert(s.take(s.len() as int) =~= s);
    if byte_len(s) > room {
        assert(s.len() > 0);
        let t = s.drop_last();
        lemma_what_fits(t, room);
        let k = fitting(t, room) as int;
        assert(t.take(k) =~= s.take(k));
        if k < t.len() {
            assert(t.take(k + 1) =~= s.take(k + 1));
        } else {
            assert(s.take(k + 1) =~= s);
        }
    }
}

/// A path of forty bytes or fewer is shown as it is. A longer one is shown as its start, three dots
/// and its name: as much of the start as leaves it at forty bytes, or nothing of it if the name
/// alone is too long. `k` is how many characters of the start are shown.
pub proof fn law_long_paths_keep_their_names(rel: Seq<char>, name: Seq<char>) -> (k: int)
    requires
        path::file_name(rel) == Some(name) || (path::file_name(rel) is None && name.len() == 0),
    ensures
        byte_len(rel) <= 40 ==> shortened(rel) == rel,
        byte_len(rel) > 40 ==> 0 <= k <= rel.len() && shortened(rel) == rel.take(k) + "..."@ + name,
        byte_len(rel) > 40 && byte_len(name) <= 37 ==> byte_len(rel.take(k)) + 3 + byte_len(name)
            <= 40,
        byte_len(rel) > 40 && byte_len(name) <= 37 && k < rel.len() ==> byte_len(rel.take(k + 1)) + 3
            + byte_len(name) > 40,
        byte_len(rel) > 40 && byte_len(name) > 37 ==> k == 0,
{
    if name.len() == 0 {
        assert(name =~= Seq::<char>::empty());
    }
    assert(shown_name(rel) == name);
    let room = if byte_len(name) + 3 <= MAX_SHOWN {
        (MAX_SHOWN - (byte_len(name) + 3)) as nat
    } else {
        0
    };
    lemma_what_fits(rel, room);
    let k = fitting(rel, room) as int;
    if byte_len(name) > 37 && k > 0 {
        let t = rel.take(k);
        assert(byte_len(t) >= char_bytes(t.last()));
    }
    k
}

/// The report after a run has a line for what was done, one for the files, one for the data and one
/// for the time, and one more if symbolic links were passed over; a run for show has none.
pub proof fn law_report_after_a_run(
    summary: &SyncSummary,
    saved: Seq<char>,
    time: Seq<char>,
    speed: u64,
)
    ensures
        summary.dry_run ==> summary_report(summary, saved, time, speed).len() == 0,
        !summary.dry_run ==> summary_report(summary, saved, time, speed).len() == if summary.symlinks_skipped
            > 0 {
            5nat
        } else {
            4nat
        },
        !summary.dry_run ==> summary_report(summary, saved, time, speed)[1] == "  Files:    "@
            + text::decimal(summary.files_transferred as nat) + " transferred, "@ + text::decimal(
            summary.files_deleted as nat,
        ) + " deleted, "@ + text::decimal(summary.files_unchanged as nat) + " unchanged"@,
        !summary.dry_run ==> summary_report(summary, saved, time, speed)[2] == "  Data:     "@
            + readable(summary.total_bytes as nat) + " changed → "@ + readable(
            summary.bytes_transferred as nat,
        ) + " sent ("@ + saved + "% saved by delta+zstd)"@,
        !summary.dry_run ==> summary_report(summary, saved, time, speed)[3] == "  Time:     "@ + time
            + "    Avg: "@ + readable(speed as nat) + "/s"@,
        !summary.dry_run && summary.symlinks_skipped > 0 ==> summary_report(
            summary,
            saved,
            time,
            speed,
        )[4] == "⚠ "@ + text::decimal(summary.symlinks_skipped as nat)
            + " symlinks skipped (not supported in v1)"@,
{
}

} // verus!
