//! How numbers a person reads are written.
//!
//! One helper per kind of number, shared by every surface that shows it: two
//! surfaces formatting bytes their own way read as two different measurements.
use vstd::prelude::*;
use crate::model::MailFootprint;
use crate::text::{decimal, decimal_of, has_text, join_and, joined, joined_with_and, occurs_at, text_opt};
use crate::text::texts;

verus! {

/// "Personal", "Personal and Work", "Personal, Work and Archive".
///
/// Every name, never "and 2 others": naming one of three absent accounts is
/// its own omission.
pub fn names(accounts: &[String]) -> (out: String)
    ensures
        out@ == joined_with_and(texts(accounts@)),
{
    join_and(accounts)
}

/// `n` divided by `d`, rounded to the nearest; half way goes to the even one.
pub open spec fn nearest(n: nat, d: nat) -> nat {
    let below = n / d;
    let rest = n % d;
    if 2 * rest < d {
        below
    } else if 2 * rest > d {
        below + 1
    } else {
        below + below % 2
    }
}

/// How far apart the numbers of 53 significant bits are around `n`.
pub open spec fn spacing(n: nat) -> nat
    decreases n,
{
    if n < 0x20_0000_0000_0000 {
        1
    } else {
        2 * spacing(n / 2)
    }
}

/// The number of 53 significant bits nearest to `n`: what `n` is in double
/// precision.
pub open spec fn in_double(n: nat) -> nat {
    nearest(n, spacing(n)) * spacing(n)
}

/// `n` bytes in units of `unit` bytes: one decimal below ten, none above.
pub open spec fn in_units(n: nat, unit: nat, name: Seq<char>) -> Seq<char> {
    if n < 10 * unit {
        let tenths = nearest(10 * n, unit);
        decimal(tenths / 10) + "."@ + decimal(tenths % 10) + " "@ + name
    } else {
        decimal(nearest(n, unit)) + " "@ + name
    }
}

/// A size: `11 KB`, `1.1 MB`. Binary units.
pub open spec fn size_text(bytes: nat) -> Seq<char> {
    let n = in_double(bytes);
    if n < 1024 {
        decimal(n) + " B"@
    } else if n < 0x10_0000 {
        in_units(n, 1024, "KB"@)
    } else if n < 0x4000_0000 {
        in_units(n, 0x10_0000, "MB"@)
    } else {
        in_units(n, 0x4000_0000, "GB"@)
    }
}

/// A size that may still be being counted: `over 1.4 GB`.
pub open spec fn bound_text(bytes: nat, complete: bool) -> Seq<char> {
    if complete {
        size_text(bytes)
    } else {
        "over "@ + size_text(bytes)
    }
}

/// `n` divided by `d`, rounded to the nearest.
fn round_to(n: u128, d: u128) -> (out: u128)
    requires
        0 < d <= 0x1_0000_0000_0000_0000,
        n <= 0xff_ffff_ffff_ffff_ffff,
    ensures
        out == nearest(n as nat, d as nat),
        out <= n + 1,
{
    let below: u128 = n / d;
    let rest: u128 = n % d;
    assert(below <= n) by (nonlinear_arith)
        requires
            below == n / d,
            d > 0,
    ;
    if 2 * rest < d {
        below
    } else if 2 * rest > d {
        assert(below + 1 <= n + 1);
        below + 1
    } else {
        proof {
            // An exact half leaves a remainder, so the whole is not below it.
            assert(below % 2 <= 1);
        }
        below + below % 2
    }
}

/// What `n` is in double precision.
fn double_of(n: u64) -> (out: u128)
    ensures
        out == in_double(n as nat),
        out <= 0x1_0000_0000_0000_0000,
        n < 0x20_0000_0000_0000 ==> out == n,
{
    let mut spaced: u128 = 1;
    let mut rest: u64 = n;
    while rest >= 0x20_0000_0000_0000
        invariant
            spaced * spacing(rest as nat) == spacing(n as nat),
            rest * spaced <= n,
            1 <= spaced <= 0x1000,
            n < 0x20_0000_0000_0000 ==> spaced == 1 && rest == n,
        decreases rest,
    {
        proof {
            let s = spacing((rest / 2) as nat);
            assert(spacing(rest as nat) == 2 * s);
            assert(spaced * (2 * s) == (spaced * 2) * s) by (nonlinear_arith);
            assert((rest / 2) * (spaced * 2) <= rest * spaced) by (nonlinear_arith);
            assert(spaced <= 0x800) by (nonlinear_arith)
                requires
                    rest * spaced <= n,
                    n <= 0xffff_ffff_ffff_ffff,
                    rest >= 0x20_0000_0000_0000,
            ;
        }
        rest = rest / 2;
        spaced = spaced * 2;
    }
    proof {
        assert(spacing(rest as nat) == 1);
        assert(spaced == spacing(n as nat)) by (nonlinear_arith)
            requires
                spaced * spacing(rest as nat) == spacing(n as nat),
                spacing(rest as nat) == 1,
        ;
        lemma_double_bounded(n as nat, spaced as nat);
        if n < 0x20_0000_0000_0000 {
            assert(nearest(n as nat, 1) == n);
        }
    }
    let near: u128 = round_to(n as u128, spaced);
    proof {
        assert(near * spaced <= 0x1_0000_0000_0000_0000);
    }
    near * spaced
}

/// Rounding to the spacing stays within 2^64.
proof fn lemma_double_bounded(n: nat, spaced: nat)
    requires
        n <= 0xffff_ffff_ffff_ffff,
        1 <= spaced,
        spaced == spacing(n),
    ensures
        nearest(n, spaced) * spaced <= 0x1_0000_0000_0000_0000,
{
    let whole: nat = 0x1_0000_0000_0000_0000;
    assert(pow2(64) == whole) by {
        reveal_with_fuel(pow2, 65);
    }
    lemma_spacing_divides(n, 64);
    let k = whole / spaced;
    let below = n / spaced;
    assert(whole == k * spaced) by {
        vstd::arithmetic::div_mod::lemma_fundamental_div_mod(whole as int, spaced as int);
        assert(spaced * k == k * spaced) by (nonlinear_arith);
    }
    assert(below < k) by (nonlinear_arith)
        requires
            n < whole,
            whole == k * spaced,
            below == n / spaced,
            spaced > 0,
    ;
    assert(nearest(n, spaced) <= below + 1);
    assert(nearest(n, spaced) * spaced <= k * spaced) by (nonlinear_arith)
        requires
            nearest(n, spaced) <= below + 1,
            below < k,
    ;
}

/// The spacing below a power of two divides it.
proof fn lemma_spacing_divides(n: nat, bits: nat)
    requires
        53 <= bits,
        n < pow2(bits),
    ensures
        spacing(n) > 0,
        pow2(bits) % spacing(n) == 0,
    decreases bits,
{
    if n >= 0x20_0000_0000_0000 {
        assert(bits > 53) by {
            reveal_with_fuel(pow2, 54);
        }
        let half = (bits - 1) as nat;
        lemma_spacing_divides(n / 2, half);
        let s = spacing(n / 2);
        let k = pow2(half) / s;
        vstd::arithmetic::div_mod::lemma_fundamental_div_mod(pow2(half) as int, s as int);
        assert(pow2(bits) == k * (2 * s)) by (nonlinear_arith)
            requires
                pow2(bits) == 2 * pow2(half),
                pow2(half) == s * k + 0,
        ;
        vstd::arithmetic::div_mod::lemma_mod_multiples_basic(k as int, (2 * s) as int);
    }
}

spec fn pow2(n: nat) -> nat
    decreases n,
{
    if n == 0 {
        1
    } else {
        2 * pow2((n - 1) as nat)
    }
}

/// `n` bytes in units of `unit` bytes.
fn write_units(n: u128, unit: u128, name: &str) -> (out: String)
    requires
        n <= 0x1_0000_0000_0000_0000,
        1024 <= unit <= 0x4000_0000,
    ensures
        out@ == in_units(n as nat, unit as nat, name@),
{
    if n < 10 * unit {
        let tenths: u128 = round_to(10 * n, unit);
        let mut out = decimal_of((tenths / 10) as u64);
        out.append(".");
        out.append(decimal_of((tenths % 10) as u64).as_str());
        out.append(" ");
        out.append(name);
        out
    } else {
        let whole: u128 = round_to(n, unit);
        assert(whole <= 0x40_0000_0000_0000int + 1) by (nonlinear_arith)
            requires
                whole == nearest(n as nat, unit as nat),
                whole <= n / unit + 1,
                n <= 0x1_0000_0000_0000_0000,
                1024 <= unit,
        ;
        let mut out = decimal_of(whole as u64);
        out.append(" ");
        out.append(name);
        out
    }
}

/// A size, the way the canvas writes it: `11 KB`, `1.1 MB`.
///
/// Binary units. One decimal below ten, none above: `1.1 MB` and `340 KB`,
/// never `1.1 KB` sitting in a column beside `340.2 KB`.
pub fn human_size(bytes: u64) -> (out: String)
    ensures
        out@ == size_text(bytes as nat),
{
    let n: u128 = double_of(bytes);
    if n < 1024 {
        let mut out = decimal_of(n as u64);
        out.append(" B");
        out
    } else if n < 0x10_0000 {
        write_units(n, 1024, "KB")
    } else if n < 0x4000_0000 {
        write_units(n, 0x10_0000, "MB")
    } else {
        write_units(n, 0x4000_0000, "GB")
    }
}

/// A size that is still being counted: `over 1.4 GB`.
///
/// Until everything is counted every figure is a lower bound, and a surface
/// has to say so.
pub fn human_size_bound(bytes: u64, complete: bool) -> (out: String)
    ensures
        out@ == bound_text(bytes as nat, complete),
{
    let size = human_size(bytes);
    if complete {
        size
    } else {
        let mut out = "over ".to_owned();
        out.append(size.as_str());
        out
    }
}

/// What one account's mail weighs, in words. Nothing when there is no mail to
/// weigh; the cost of attachments only where they are not fetched and there
/// are any. What is already downloaded carries no hedge.
pub open spec fn weight_text(footprint: MailFootprint, attachments_included: bool) -> Option<
    Seq<char>,
> {
    let local = size_text(footprint.local_bytes as nat);
    if footprint.total_bytes == 0 {
        None
    } else if attachments_included {
        Some(
            local + " of "@ + bound_text(footprint.total_bytes as nat, footprint.complete)
                + " downloaded · attachments included"@,
        )
    } else if footprint.attachment_bytes == 0 {
        Some(local + " downloaded"@)
    } else {
        Some(
            local + " downloaded · attachments would add "@ + bound_text(
                footprint.attachment_bytes as nat,
                footprint.complete,
            ),
        )
    }
}

/// What one account's mail weighs, for the settings panel's account row.
///
/// `890 MB downloaded · attachments would add 11 GB` when payloads are not
/// being fetched, and `890 MB of 12 GB downloaded · attachments included`
/// when they are. `None` — no line at all — for an account with no mail.
pub fn mail_weight(footprint: &MailFootprint, attachments_included: bool) -> (out: Option<String>)
    ensures
        text_opt(out) == weight_text(*footprint, attachments_included),
{
    if footprint.total_bytes == 0 {
        return None;
    }
    let mut out = human_size(footprint.local_bytes);
    if attachments_included {
        out.append(" of ");
        out.append(human_size_bound(footprint.total_bytes, footprint.complete).as_str());
        out.append(" downloaded · attachments included");
        return Some(out);
    }
    if footprint.attachment_bytes == 0 {
        out.append(" downloaded");
        return Some(out);
    }
    out.append(" downloaded · attachments would add ");
    out.append(human_size_bound(footprint.attachment_bytes, footprint.complete).as_str());
    Some(out)
}

proof fn lemma_said_in_part(text: Seq<char>, before: Seq<char>, after: Seq<char>, name: Seq<char>)
    requires
        has_text(text, name),
    ensures
        has_text(before + text + after, name),
{
    let at = choose|at: int| #[trigger] occurs_at(text, name, at);
    let whole = before + text + after;
    assert(whole.subrange(before.len() + at, before.len() + at + name.len()) =~= text.subrange(
        at,
        at + name.len(),
    ));
    assert(occurs_at(whole, name, before.len() + at));
}

/// Every part is in the whole.
pub proof fn lemma_joined_says(parts: Seq<Seq<char>>, sep: Seq<char>, i: int)
    requires
        0 <= i < parts.len(),
    ensures
        has_text(joined(parts, sep), parts[i]),
    decreases parts.len(),
{
    let none = Seq::<char>::empty();
    assert(parts[i].subrange(0, parts[i].len() as int) =~= parts[i]);
    assert(occurs_at(parts[i], parts[i], 0));
    if parts.len() > 1 {
        let front = joined(parts.drop_last(), sep);
        if i < parts.len() - 1 {
            lemma_joined_says(parts.drop_last(), sep, i);
            lemma_said_in_part(front, none, sep + parts.last(), parts[i]);
            assert(none + front + (sep + parts.last()) =~= front + sep + parts.last());
        } else {
            lemma_said_in_part(parts[i], front + sep, none, parts[i]);
            assert(front + sep + parts[i] + none =~= front + sep + parts.last());
        }
    }
}

/// Every name in a list is said, however many there are.
pub proof fn lemma_every_name_is_said(accounts: Seq<Seq<char>>, i: int)
    requires
        0 <= i < accounts.len(),
    ensures
        has_text(joined_with_and(accounts), accounts[i]),
{
    let none = Seq::<char>::empty();
    lemma_joined_says(accounts, ", "@, i);
    if accounts.len() > 1 {
        let front = joined(accounts.drop_last(), ", "@);
        let last = accounts.last();
        if i < accounts.len() - 1 {
            lemma_joined_says(accounts.drop_last(), ", "@, i);
            lemma_said_in_part(front, none, " and "@ + last, accounts[i]);
            assert(none + front + (" and "@ + last) =~= front + " and "@ + last);
        } else {
            assert(last.subrange(0, last.len() as int) =~= last);
            assert(occurs_at(last, last, 0));
            lemma_said_in_part(last, front + " and "@, none, last);
            assert(front + " and "@ + last + none =~= front + " and "@ + last);
        }
    }
}

/// Rounding goes to the nearest whole number: no other is nearer, and of two
/// as near the even one is taken.
pub proof fn lemma_rounds_to_the_nearest(n: nat, d: nat)
    requires
        d > 0,
    ensures
        -(d as int) <= 2 * (n - d * nearest(n, d)) <= d,
        2 * (n - d * nearest(n, d)) == d || 2 * (n - d * nearest(n, d)) == -(d as int) ==> nearest(
            n,
            d,
        ) % 2 == 0,
{
    vstd::arithmetic::div_mod::lemma_fundamental_div_mod(n as int, d as int);
    vstd::arithmetic::div_mod::lemma_mod_bound(n as int, d as int);
    let below = n / d;
    assert(d * (below + 1) == d * below + d) by (nonlinear_arith);
    assert(d * (below + 0) == d * below);
    if 2 * (n % d) == d {
        assert(below % 2 == 0 || below % 2 == 1);
        if below % 2 == 0 {
            assert(d * (below + below % 2) == d * below);
        } else {
            assert(nearest(n, d) == below + 1);
        }
    }
}

/// The numbers of 53 significant bits lie a power of two apart, and closer
/// than that the smaller the number.
pub proof fn lemma_significant_bits(n: nat)
    ensures
        spacing(n) >= 1,
        n < 0x20_0000_0000_0000 ==> in_double(n) == n,
        n >= 0x20_0000_0000_0000 ==> 0x10_0000_0000_0000 * spacing(n) <= n < 0x20_0000_0000_0000
            * spacing(n),
    decreases n,
{
    if n >= 0x20_0000_0000_0000 {
        lemma_significant_bits(n / 2);
    } else {
        assert(nearest(n, 1) == n);
    }
}

/// The name of a unit of `unit` bytes.
pub open spec fn unit_name(unit: nat) -> Seq<char> {
    if unit == 1024 {
        "KB"@
    } else if unit == 1024 * 1024 {
        "MB"@
    } else {
        "GB"@
    }
}

/// A size is said in the largest unit it fills, up to the gigabyte, and to
/// within half of the last place shown: a tenth of the unit below ten of it,
/// the whole unit from there on. Less than a kilobyte is said to the byte.
pub proof fn lemma_size_is_near_enough(n: nat)
    requires
        n < 0x20_0000_0000_0000,
    ensures
        n < 1024 ==> size_text(n) == decimal(n) + " B"@,
        n >= 1024 ==> exists|unit: nat, shown: nat|
            {
                &&& unit == 1024 || unit == 1024 * 1024 || unit == 1024 * 1024 * 1024
                &&& unit <= n
                &&& n < 1024 * unit || unit == 1024 * 1024 * 1024
                &&& if n < 10 * unit {
                    &&& -(unit as int) <= 2 * (10 * n - unit * shown) <= unit
                    &&& size_text(n) == #[trigger] tenths_text(shown, unit)
                } else {
                    &&& -(unit as int) <= 2 * (n - unit * shown) <= unit
                    &&& size_text(n) == decimal(shown) + " "@ + unit_name(unit)
                }
            },
{
    lemma_significant_bits(n);
    if n >= 1024 {
        let unit: nat = if n < 0x10_0000 {
            1024
        } else if n < 0x4000_0000 {
            0x10_0000
        } else {
            0x4000_0000
        };
        let shown = if n < 10 * unit {
            nearest(10 * n, unit)
        } else {
            nearest(n, unit)
        };
        lemma_rounds_to_the_nearest(10 * n, unit);
        lemma_rounds_to_the_nearest(n, unit);
        assert(tenths_text(shown, unit) == tenths_text(shown, unit));
        assert(size_text(n) == in_units(n, unit, unit_name(unit)));
    }
}

/// So many tenths of a unit.
pub open spec fn tenths_text(tenths: nat, unit: nat) -> Seq<char> {
    decimal(tenths / 10) + "."@ + decimal(tenths % 10) + " "@ + unit_name(unit)
}

/// A size still being counted says so, and is otherwise said as one that is
/// not.
pub proof fn lemma_a_bound_says_so(bytes: nat)
    ensures
        bound_text(bytes, true) == size_text(bytes),
        bound_text(bytes, false) == "over "@ + bound_text(bytes, true),
{
}

/// An account with no mail has no line, every other has one. What is
/// downloaded comes first and carries no hedge. What the attachments would
/// cost is said where they are not fetched, what there is in all where they
/// are, and neither says the other.
pub proof fn lemma_what_mail_weighs(footprint: MailFootprint, other: MailFootprint, included: bool)
    ensures
        weight_text(footprint, included) is None <==> footprint.total_bytes == 0,
        weight_text(footprint, included) matches Some(line) ==> {
            &&& occurs_at(line, size_text(footprint.local_bytes as nat) + " "@, 0)
            &&& included ==> has_text(
                line,
                bound_text(footprint.total_bytes as nat, footprint.complete),
            )
            &&& !included && footprint.attachment_bytes > 0 ==> has_text(
                line,
                bound_text(footprint.attachment_bytes as nat, footprint.complete),
            )
            &&& !included && footprint.attachment_bytes == 0 ==> line == size_text(
                footprint.local_bytes as nat,
            ) + " downloaded"@
        },
        included && footprint.local_bytes == other.local_bytes && footprint.total_bytes
            == other.total_bytes && footprint.complete == other.complete ==> weight_text(
            footprint,
            included,
        ) == weight_text(other, included),
        !included && footprint.local_bytes == other.local_bytes && footprint.attachment_bytes
            == other.attachment_bytes && footprint.complete == other.complete && (
        footprint.total_bytes > 0 <==> other.total_bytes > 0) ==> weight_text(footprint, included)
            == weight_text(other, included),
{
    reveal_strlit(" ");
    reveal_strlit(" of ");
    reveal_strlit(" downloaded");
    reveal_strlit(" downloaded · attachments would add ");
    let local = size_text(footprint.local_bytes as nat);
    if let Some(line) = weight_text(footprint, included) {
        assert(line.subrange(0, local.len() as int + 1) =~= local + " "@);
        if included {
            let all = bound_text(footprint.total_bytes as nat, footprint.complete);
            let at = local.len() + 4;
            assert(line.subrange(at as int, (at + all.len()) as int) =~= all);
            assert(occurs_at(line, all, at as int));
        } else if footprint.attachment_bytes > 0 {
            let more = bound_text(footprint.attachment_bytes as nat, footprint.complete);
            let at = line.len() - more.len();
            assert(line.subrange(at, at + more.len()) =~= more);
            assert(occurs_at(line, more, at));
        }
    }
}

} // verus!
