//! The command-line frontend's argument vocabulary and its report schedule.

use vstd::prelude::*;
use crate::integrator::IntegratorKind;
use crate::preset::Preset;

verus! {

/// ASCII upper-case letters mapped to lower case; everything else as is.
pub open spec fn ascii_lower(c: char) -> char {
    if 'A' <= c && c <= 'Z' {
        ((c as int) + 32) as char
    } else {
        c
    }
}

/// `s` with its ASCII letters in lower case.
pub open spec fn ascii_lowercase(s: Seq<char>) -> Seq<char> {
    Seq::new(s.len(), |i: int| ascii_lower(s[i]))
}

/// Whether `s`, once lower-cased, is `word`.
fn lower_eq(s: &str, word: &str) -> (b: bool)
    ensures
        b == (ascii_lowercase(s@) == word@),
{
    let n = s.unicode_len();
    let m = word.unicode_len();
    if n != m {
        assert(ascii_lowercase(s@).len() != word@.len());
        return false;
    }
    let mut i: usize = 0;
    while i < n
        invariant
            n == s@.len(),
            m == word@.len(),
            n == m,
            i <= n,
            forall|k: int| 0 <= k < i ==> ascii_lower(s@[k]) == word@[k],
        decreases n - i,
    {
        let c = s.get_char(i);
        let w = word.get_char(i);
        let same = if 'A' <= c && c <= 'Z' { (c as u32) + 32 == (w as u32) } else { c == w };
        assert(same == (ascii_lower(c) == w));
        if !same {
            assert(ascii_lowercase(s@)[i as int] != word@[i as int]);
            return false;
        }
        i = i + 1;
    }
    assert(ascii_lowercase(s@) =~= word@);
    true
}

/// The preset a command-line word names, whatever the case of its letters:
/// `solar`, `binary`, `eight` or `figureeight`, `cluster` or `random`.
pub open spec fn preset_named(s: Seq<char>) -> Option<Preset> {
    let w = ascii_lowercase(s);
    if w == "solar"@ {
        Some(Preset::SolarSystem)
    } else if w == "binary"@ {
        Some(Preset::Binary)
    } else if w == "eight"@ || w == "figureeight"@ {
        Some(Preset::FigureEight)
    } else if w == "cluster"@ || w == "random"@ {
        Some(Preset::RandomCluster)
    } else {
        None
    }
}

/// The integrator a command-line word names, whatever the case of its
/// letters: `euler`, `verlet` or `leapfrog`.
pub open spec fn integrator_named(s: Seq<char>) -> Option<IntegratorKind> {
    let w = ascii_lowercase(s);
    if w == "euler"@ {
        Some(IntegratorKind::Euler)
    } else if w == "verlet"@ {
        Some(IntegratorKind::Verlet)
    } else if w == "leapfrog"@ {
        Some(IntegratorKind::Leapfrog)
    } else {
        None
    }
}

/// Reads a preset name given on the command line.
pub fn parse_preset(s: &str) -> (p: Option<Preset>)
    ensures
        p == preset_named(s@),
{
    if lower_eq(s, "solar") {
        Some(Preset::SolarSystem)
    } else if lower_eq(s, "binary") {
        Some(Preset::Binary)
    } else if lower_eq(s, "eight") || lower_eq(s, "figureeight") {
        Some(Preset::FigureEight)
    } else if lower_eq(s, "cluster") || lower_eq(s, "random") {
        Some(Preset::RandomCluster)
    } else {
        None
    }
}

/// Reads an integrator name given on the command line.
pub fn parse_integrator(s: &str) -> (k: Option<IntegratorKind>)
    ensures
        k == integrator_named(s@),
{
    if lower_eq(s, "euler") {
        Some(IntegratorKind::Euler)
    } else if lower_eq(s, "verlet") {
        Some(IntegratorKind::Verlet)
    } else if lower_eq(s, "leapfrog") {
        Some(IntegratorKind::Leapfrog)
    } else {
        None
    }
}

/// Over a run of `steps` steps, the state is reported about forty times:
/// every `max(steps / 40, 1)` steps.
pub fn report_every(steps: u64) -> (n: u64)
    ensures
        n == (if steps / 40 > 1 { steps / 40 } else { 1 }),
        n >= 1,
{
    let n = steps / 40;
    if n > 1 { n } else { 1 }
}

/// Whether step `step` (counted from one) of a run of `steps` steps is
/// reported: every `report_every(steps)` steps, and the last one.
pub fn is_report_step(step: u64, steps: u64) -> (b: bool)
    ensures
        b == (step % (if steps / 40 > 1 { steps / 40 } else { 1 }) == 0 || step == steps),
{
    let every = report_every(steps);
    step % every == 0 || step == steps
}

/// Lower-casing twice is lower-casing once.
proof fn lemma_lowercase_idempotent(s: Seq<char>)
    ensures
        ascii_lowercase(ascii_lowercase(s)) == ascii_lowercase(s),
{
    assert(ascii_lowercase(ascii_lowercase(s)) =~= ascii_lowercase(s));
}

/// Command-line names ignore the case of their letters: a word names the
/// same preset and the same integrator as its lower-case form.
pub proof fn lemma_names_ignore_case(s: Seq<char>)
    ensures
        preset_named(s) == preset_named(ascii_lowercase(s)),
        integrator_named(s) == integrator_named(ascii_lowercase(s)),
{
    lemma_lowercase_idempotent(s);
}

/// Every preset and every integrator can be chosen on the command line.
pub proof fn lemma_every_choice_has_a_name(p: Preset, k: IntegratorKind)
    ensures
        exists|w: Seq<char>| preset_named(w) == Some(p),
        exists|w: Seq<char>| integrator_named(w) == Some(k),
{
    reveal_strlit("solar");
    reveal_strlit("binary");
    reveal_strlit("eight");
    reveal_strlit("figureeight");
    reveal_strlit("cluster");
    reveal_strlit("random");
    reveal_strlit("euler");
    reveal_strlit("verlet");
    reveal_strlit("leapfrog");
    assert("eight"@[0] != "solar"@[0] && "eight"@[0] != "binary"@[0]);
    assert("cluster"@[0] != "solar"@[0] && "cluster"@[0] != "binary"@[0] && "cluster"@[0] != "eight"@[0]
        && "cluster"@[0] != "figureeight"@[0]);
    assert("binary"@[0] != "solar"@[0]);
    assert("verlet"@[0] != "euler"@[0] && "leapfrog"@[0] != "euler"@[0] && "leapfrog"@[0] != "verlet"@[0]);
    let names = seq!["solar"@, "binary"@, "eight"@, "cluster"@, "euler"@, "verlet"@, "leapfrog"@];
    assert forall|i: int| 0 <= i < 7 implies ascii_lowercase(#[trigger] names[i]) == names[i] by {
        assert(ascii_lowercase(names[i]) =~= names[i]);
    }
    match p {
        Preset::SolarSystem => assert(preset_named(names[0]) == Some(p)),
        Preset::Binary => assert(preset_named(names[1]) == Some(p)),
        Preset::FigureEight => assert(preset_named(names[2]) == Some(p)),
        Preset::RandomCluster => assert(preset_named(names[3]) == Some(p)),
    }
    match k {
        IntegratorKind::Euler => assert(integrator_named(names[4]) == Some(k)),
        IntegratorKind::Verlet => assert(integrator_named(names[5]) == Some(k)),
        IntegratorKind::Leapfrog => assert(integrator_named(names[6]) == Some(k)),
    }
}

} // verus!
