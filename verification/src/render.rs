//! Rendering of quantities, tiers, durations and the expansion's progress
//! tree lines.
//!
//! A quantity is shown with four decimal places exactly when its value is
//! non-integral, otherwise as a plain whole number; this rule applies to the
//! tree output and the summary alike. A duration renders one `unit = value`
//! line per present field, largest unit first.

use vstd::prelude::*;
use vstd::arithmetic::div_mod::lemma_mod_bound;
use crate::amount::Amount;
use crate::strutil::{spec_digits, spec_digit, spec_pad_right, spec_repeat, u64_string,
    u128_string, digit_str, pad_right};
use crate::time::CraftingTime;

verus! {

/// Decimal display of an amount: the whole number when integral, otherwise
/// the value rounded half-up to four decimal places.
pub open spec fn spec_amount_display(a: Amount) -> Seq<char> {
    if a.num % a.den == 0 {
        spec_digits((a.num as int) / (a.den as int))
    } else {
        let scaled = (a.num * 20000 + a.den) / (2 * a.den);
        spec_digits(scaled / 10000) + (".")@ + seq![
            spec_digit(scaled % 10000 / 1000),
            spec_digit(scaled % 10000 / 100 % 10),
            spec_digit(scaled % 10000 / 10 % 10),
            spec_digit(scaled % 10000 % 10),
        ]
    }
}

/// Render an amount by the display rule above.
pub fn amount_display(a: Amount) -> (r: String)
    requires
        a.wf(),
    ensures
        r@ == spec_amount_display(a),
{
    if a.num % a.den == 0 {
        u64_string(a.num / a.den)
    } else {
        proof {
            lemma_mod_bound(a.num as int, a.den as int);
        }
        let scaled: u128 = ((a.num as u128) * 20000 + (a.den as u128)) / (2 * (a.den as u128));
        proof {
            lemma_mod_bound(scaled as int, 10000);
        }
        let int_part: u128 = scaled / 10000;
        let frac: u64 = (scaled % 10000) as u64;
        let mut s = u128_string(int_part);
        s.append(".");
        s.append(digit_str(frac / 1000));
        s.append(digit_str(frac / 100 % 10));
        s.append(digit_str(frac / 10 % 10));
        s.append(digit_str(frac % 10));
        proof {
            lemma_mod_bound((frac / 100) as int, 10);
            lemma_mod_bound((frac / 10) as int, 10);
            lemma_mod_bound(frac as int, 10);
        }
        s
    }
}

/// Display of a tier: the number when positive, `Unknown` otherwise.
pub open spec fn spec_tier_display(tier: int) -> Seq<char> {
    if tier > 0 {
        spec_digits(tier)
    } else {
        ("Unknown")@
    }
}

/// Render a tier by the display rule above.
pub fn tier_display(tier: i32) -> (r: String)
    ensures
        r@ == spec_tier_display(tier as int),
{
    if tier > 0 {
        u64_string(tier as u64)
    } else {
        String::from_str("Unknown")
    }
}

/// One line of the expansion's progress tree, followed by a blank line.
/// Nested items carry a dash-and-spaces prefix two spaces per level wide;
/// an integral amount pads the name to twenty characters, a fractional one
/// does not.
pub open spec fn spec_tree_line(depth: int, name: Seq<char>, a: Amount, tier: int) -> Seq<char> {
    let prefix = if depth == 0 {
        Seq::<char>::empty()
    } else {
        seq!['-'] + spec_repeat(' ', 2 * depth)
    };
    let amt = spec_amount_display(a);
    let tier_s = spec_tier_display(tier);
    if a.num % a.den == 0 {
        prefix + spec_pad_right(name, 20) + (": ")@ + amt + (" part(s) [Tier: ")@ + tier_s + (
        "]\n\n")@
    } else {
        prefix + name + (": ")@ + amt + (" part(s) [Tier: ")@ + tier_s + ("]\n\n")@
    }
}

/// Render one progress tree line.
pub fn render_tree_line(depth: usize, name: &String, a: Amount, tier: i32) -> (r: String)
    requires
        a.wf(),
    ensures
        r@ == spec_tree_line(depth as int, name@, a, tier as int),
{
    let mut out = String::new();
    if depth > 0 {
        out.append("-");
        let mut d: usize = 0;
        while d < depth
            invariant
                d <= depth,
                out@ == ("-")@ + spec_repeat(' ', 2 * d),
            decreases depth - d,
        {
            out.append("  ");
            proof {
                reveal_strlit("  ");
                crate::strutil::lemma_repeat(' ', 2 * (d as int));
                crate::strutil::lemma_repeat(' ', 2 * (d as int + 1));
                assert(("-")@ + spec_repeat(' ', 2 * (d as int)) + ("  ")@ =~= ("-")@
                    + spec_repeat(' ', 2 * (d as int + 1)));
            }
            d = d + 1;
        }
        proof {
            reveal_strlit("-");
            assert(("-")@ =~= seq!['-']);
        }
    }
    let whole = a.num % a.den == 0;
    if whole {
        let padded = pad_right(name.clone(), 20);
        out.append(padded.as_str());
    } else {
        out.append(name.as_str());
    }
    out.append(": ");
    let amt = amount_display(a);
    out.append(amt.as_str());
    out.append(" part(s) [Tier: ");
    let t = tier_display(tier);
    out.append(t.as_str());
    out.append("]\n\n");
    proof {
        if depth == 0 {
            assert(Seq::<char>::empty() + spec_pad_right(name@, 20) =~= spec_pad_right(name@, 20));
            assert(Seq::<char>::empty() + name@ =~= name@);
        }
    }
    out
}

/// One `unit = value` line of a rendered duration; absent renders nothing.
pub open spec fn spec_field_line(label: Seq<char>, v: Option<u64>) -> Seq<char> {
    match v {
        None => Seq::empty(),
        Some(x) => label + (" = ")@ + spec_digits(x as int) + ("\n")@,
    }
}

/// The rendered duration: one line per present field, largest unit first.
pub open spec fn spec_render_time(t: CraftingTime) -> Seq<char> {
    spec_field_line(("weeks")@, t.weeks) + spec_field_line(("days")@, t.days) + spec_field_line(
        ("hours")@, t.hours) + spec_field_line(("minutes")@, t.minutes) + spec_field_line(
        ("seconds")@, t.seconds)
}

fn append_field(out: &mut String, label: &str, v: Option<u64>)
    ensures
        final(out)@ == old(out)@ + spec_field_line(label@, v),
{
    match v {
        None => {
            proof {
                assert(old(out)@ + Seq::<char>::empty() =~= old(out)@);
            }
        },
        Some(x) => {
            out.append(label);
            out.append(" = ");
            let d = u64_string(x);
            out.append(d.as_str());
            out.append("\n");
            proof {
                assert(out@ =~= old(out)@ + spec_field_line(label@, v));
            }
        },
    }
}

/// Render a duration as `unit = value` lines, one per present field.
pub fn render_time(t: &CraftingTime) -> (r: String)
    ensures
        r@ == spec_render_time(*t),
{
    let mut out = String::new();
    append_field(&mut out, "weeks", t.weeks);
    append_field(&mut out, "days", t.days);
    append_field(&mut out, "hours", t.hours);
    append_field(&mut out, "minutes", t.minutes);
    append_field(&mut out, "seconds", t.seconds);
    proof {
        assert(out@ =~= spec_render_time(*t));
    }
    out
}

} // verus!
