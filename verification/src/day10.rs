//! Machines with indicator lights, buttons that toggle some of the lights,
//! and joltage counters: the fewest button presses that show the wanted
//! lights, and the fewest that bring the counters to the wanted joltages.
use crate::day06::{spec_tokens, tokens};
use crate::text::{
    chars_of, copy_range, lines, nat_of, nat_of_u128, parse_bounded, parse_unsigned_max,
    pieces_view, spec_lines, spec_split, split,
};
use good_lp::{default_solver, variable, Expression, ProblemVariables, Solution, SolverModel};
use vstd::prelude::*;

verus! {

/// The greatest light pattern of the table: sixteen lights, all on.
pub const MAX_XOR: usize = 65535;

/// A machine: the wanted lights as a binary number, first light first; for
/// each button the lights that it toggles, in the same form; and the wanted
/// joltages.
pub struct Machine {
    pub wanted_lights: usize,
    pub buttons: Vec<usize>,
    pub voltages: Vec<usize>,
}

/// A machine as a mathematical value.
pub struct MachineView {
    pub wanted_lights: usize,
    pub buttons: Seq<usize>,
    pub voltages: Seq<usize>,
}

impl View for Machine {
    type V = MachineView;

    open spec fn view(&self) -> MachineView {
        MachineView {
            wanted_lights: self.wanted_lights,
            buttons: self.buttons@,
            voltages: self.voltages@,
        }
    }
}

/// The lights that the first `k` characters show: `#` is on, `.` is off,
/// other characters show no light.
pub open spec fn light_bits(s: Seq<char>, k: int) -> Seq<bool>
    decreases k,
{
    if k <= 0 {
        Seq::empty()
    } else {
        let rest = light_bits(s, k - 1);
        if s[k - 1] == '#' {
            rest.push(true)
        } else if s[k - 1] == '.' {
            rest.push(false)
        } else {
            rest
        }
    }
}

/// The binary number that the bits denote, first bit highest.
pub open spec fn binary_value(bits: Seq<bool>) -> nat
    decreases bits.len(),
{
    if bits.len() == 0 {
        0
    } else {
        2 * binary_value(bits.drop_last()) + if bits.last() {
            1nat
        } else {
            0nat
        }
    }
}

/// `s` without the given first and last character, when it has both; else `s`.
pub open spec fn unwrapped(s: Seq<char>, open: char, close: char) -> Seq<char> {
    if s.len() >= 2 && s[0] == open && s.last() == close {
        s.subrange(1, s.len() - 1)
    } else {
        s
    }
}

/// The numbers no greater than `max` among the first `k` pieces, in their
/// order; pieces that are no such number are passed over.
pub open spec fn numbers_among(pieces: Seq<Seq<char>>, max: nat, k: int) -> Seq<nat>
    decreases k,
{
    if k <= 0 {
        Seq::empty()
    } else {
        let rest = numbers_among(pieces, max, k - 1);
        match parse_bounded(pieces[k - 1], max) {
            Some(v) => rest.push(v),
            None => rest,
        }
    }
}

/// The comma-separated numbers no greater than `max` in a list that may stand
/// between `open` and `close`.
pub open spec fn number_list(s: Seq<char>, open: char, close: char, max: nat) -> Seq<nat> {
    let pieces = spec_split(unwrapped(s, open, close), ',');
    numbers_among(pieces, max, pieces.len() as int)
}

/// Whether a button can toggle light `toggle` of a machine with `size` lights:
/// the light exists, and its place fits the machine word.
pub open spec fn toggle_fits(size: nat, toggle: nat) -> bool {
    toggle < size && size - 1 - toggle < usize::BITS
}

/// The pattern of a button that toggles the first `k` of the listed lights;
/// `None` when one of them does not fit.
pub open spec fn button_pattern(size: nat, toggles: Seq<nat>, k: int) -> Option<usize>
    decreases k,
{
    if k <= 0 {
        Some(0usize)
    } else {
        match button_pattern(size, toggles, k - 1) {
            Some(p) if toggle_fits(size, toggles[k - 1]) => Some(
                p | (1usize << ((size - 1 - toggles[k - 1]) as usize)),
            ),
            _ => None,
        }
    }
}

/// The patterns of the buttons that the tokens from `from` up to `to` denote;
/// `None` when a button toggles a light that does not fit.
pub open spec fn button_patterns(elems: Seq<Seq<char>>, size: nat, from: int, to: int) -> Option<
    Seq<usize>,
>
    decreases to - from,
{
    if to <= from {
        Some(Seq::empty())
    } else {
        let toggles = number_list(elems[to - 1], '(', ')', 255);
        match (
            button_patterns(elems, size, from, to - 1),
            button_pattern(size, toggles, toggles.len() as int),
        ) {
            (Some(ps), Some(p)) => Some(ps.push(p)),
            _ => None,
        }
    }
}

/// The machine that a line denotes: the lights in brackets, the buttons in
/// parentheses, the joltages in braces, separated by whitespace. `None` when
/// the line has fewer than two tokens, shows no light or more than fit the
/// machine word, has a button that toggles a light that does not fit, or has
/// not one joltage for each light.
pub open spec fn spec_parse_machine(line: Seq<char>) -> Option<MachineView> {
    let elems = spec_tokens(line);
    if elems.len() < 2 {
        None
    } else {
        let bits = light_bits(elems[0], elems[0].len() as int);
        let voltages = number_list(elems.last(), '{', '}', usize::MAX as nat);
        let buttons = button_patterns(elems, (bits.len() % 256) as nat, 1, elems.len() - 1);
        if bits.len() == 0 || binary_value(bits) > usize::MAX || buttons is None || bits.len()
            != voltages.len() {
            None
        } else {
            Some(
                MachineView {
                    wanted_lights: binary_value(bits) as usize,
                    buttons: buttons->Some_0,
                    voltages: Seq::new(voltages.len(), |i: int| voltages[i] as usize),
                },
            )
        }
    }
}

/// The lights that the characters show.
pub fn read_lights(s: &Vec<char>) -> (r: Vec<bool>)
    ensures
        r@ == light_bits(s@, s.len() as int),
{
    let mut bits: Vec<bool> = Vec::new();
    let mut k: usize = 0;
    while k < s.len()
        invariant
            0 <= k <= s.len(),
            bits@ == light_bits(s@, k as int),
        decreases s.len() - k,
    {
        if s[k] == '#' {
            bits.push(true);
        } else if s[k] == '.' {
            bits.push(false);
        }
        k += 1;
    }
    bits
}

/// A longer prefix never denotes less.
pub proof fn lemma_binary_value_grows(bits: Seq<bool>, k: int)
    requires
        0 <= k <= bits.len(),
    ensures
        binary_value(bits.take(k)) <= binary_value(bits),
    decreases bits.len() - k,
{
    if k < bits.len() {
        assert(bits.take(k + 1).drop_last() == bits.take(k));
        lemma_binary_value_grows(bits, k + 1);
    } else {
        assert(bits.take(k) == bits);
    }
}

/// The binary number that the bits denote, or `None` when it exceeds `usize`.
pub fn read_binary(bits: &Vec<bool>) -> (r: Option<usize>)
    ensures
        r == if binary_value(bits@) <= usize::MAX {
            Some(binary_value(bits@) as usize)
        } else {
            None
        },
{
    let mut value: usize = 0;
    let mut k: usize = 0;
    assert(bits@.take(0) == Seq::<bool>::empty());
    while k < bits.len()
        invariant
            0 <= k <= bits.len(),
            value == binary_value(bits@.take(k as int)),
        decreases bits.len() - k,
    {
        proof {
            assert(bits@.take(k + 1).drop_last() == bits@.take(k as int));
            lemma_binary_value_grows(bits@, k + 1);
        }
        let bit: usize = if bits[k] {
            1
        } else {
            0
        };
        if value > (usize::MAX - bit) / 2 {
            return None;
        }
        value = 2 * value + bit;
        k += 1;
    }
    assert(bits@.take(k as int) == bits@);
    Some(value)
}

/// The comma-separated numbers no greater than `max` in a list that may stand
/// between `open` and `close`.
pub fn read_number_list(s: &Vec<char>, open: char, close: char, max: u64) -> (r: Vec<u64>)
    ensures
        r@.len() == number_list(s@, open, close, max as nat).len(),
        forall|i: int| 0 <= i < r.len() ==> r[i] == number_list(s@, open, close, max as nat)[i],
{
    let inner = if s.len() >= 2 && s[0] == open && s[s.len() - 1] == close {
        copy_range(s, 1, s.len() - 1)
    } else {
        assert(s@.subrange(0, s.len() as int) == s@);
        copy_range(s, 0, s.len())
    };
    let pieces = split(&inner, ',');
    let ghost view = pieces_view(pieces@);
    assert(view.len() == pieces.len());
    let mut out: Vec<u64> = Vec::new();
    let mut k: usize = 0;
    while k < pieces.len()
        invariant
            0 <= k <= pieces.len(),
            view == pieces_view(pieces@),
            out@.len() == numbers_among(view, max as nat, k as int).len(),
            forall|i: int|
                0 <= i < out.len() ==> out[i] == numbers_among(view, max as nat, k as int)[i],
        decreases pieces.len() - k,
    {
        assert(view[k as int] == pieces[k as int]@);
        if let Some(v) = parse_unsigned_max(&pieces[k], max) {
            out.push(v);
        }
        k += 1;
    }
    out
}

/// The pattern of a button of a machine with `size` lights that toggles the
/// listed lights.
pub fn read_button(size: u8, toggles: &Vec<u64>) -> (r: Option<usize>)
    requires
        forall|i: int| 0 <= i < toggles.len() ==> toggles[i] <= 255,
    ensures
        r == button_pattern(
            size as nat,
            Seq::new(toggles.len() as nat, |i: int| toggles[i] as nat),
            toggles.len() as int,
        ),
{
    let ghost list = Seq::new(toggles.len() as nat, |i: int| toggles[i] as nat);
    let mut button_value: usize = 0;
    let mut k: usize = 0;
    while k < toggles.len()
        invariant
            0 <= k <= toggles.len(),
            list == Seq::new(toggles.len() as nat, |i: int| toggles[i] as nat),
            forall|i: int| 0 <= i < toggles.len() ==> toggles[i] <= 255,
            button_pattern(size as nat, list, k as int) == Some(button_value),
        decreases toggles.len() - k,
    {
        let toggle = toggles[k];
        assert(list[k as int] == toggle);
        if toggle >= size as u64 || (size as u64 - 1 - toggle) >= usize::BITS as u64 {
            proof {
                assert(button_pattern(size as nat, list, k + 1) is None);
                lemma_button_none_stays(size as nat, list, k + 1, list.len() as int);
            }
            return None;
        }
        let shift: usize = (size as u64 - 1 - toggle) as usize;
        button_value = button_value | (1usize << shift);
        k += 1;
    }
    Some(button_value)
}

/// Once a light does not fit, the button has no pattern.
pub proof fn lemma_button_none_stays(size: nat, toggles: Seq<nat>, k: int, n: int)
    requires
        0 <= k <= n,
        button_pattern(size, toggles, k) is None,
    ensures
        button_pattern(size, toggles, n) is None,
    decreases n - k,
{
    if k < n {
        lemma_button_none_stays(size, toggles, k, n - 1);
    }
}

/// Once a button has no pattern, neither have the buttons.
pub proof fn lemma_buttons_none_stays(
    elems: Seq<Seq<char>>,
    size: nat,
    from: int,
    k: int,
    n: int,
)
    requires
        from <= k <= n,
        button_patterns(elems, size, from, k) is None,
    ensures
        button_patterns(elems, size, from, n) is None,
    decreases n - k,
{
    if k < n {
        lemma_buttons_none_stays(elems, size, from, k, n - 1);
    }
}

impl Machine {
    /// Reads a machine from the characters of its line.
    pub fn from_chars(s: &Vec<char>) -> (r: Option<Machine>)
        ensures
            match spec_parse_machine(s@) {
                Some(m) => r is Some && r->Some_0@ == m,
                None => r is None,
            },
    {
        let elems = tokens(s);
        let ghost view = pieces_view(elems@);
        assert(view.len() == elems.len());
        if elems.len() < 2 {
            return None;
        }
        assert(view[0] == elems[0]@);
        assert(view.last() == elems[elems.len() - 1]@);
        let bits = read_lights(&elems[0]);
        let wanted = read_binary(&bits);
        let volts = read_number_list(&elems[elems.len() - 1], '{', '}', usize::MAX as u64);
        let size: u8 = (bits.len() % 256) as u8;
        let mut buttons: Vec<usize> = Vec::new();
        let mut k: usize = 1;
        while k < elems.len() - 1
            invariant
                1 <= k <= elems.len() - 1,
                view == pieces_view(elems@),
                view == spec_tokens(s@),
                view.len() == elems.len(),
                size == bits.len() % 256,
                bits@ == light_bits(view[0], view[0].len() as int),
                button_patterns(view, size as nat, 1, k as int) == Some(buttons@),
            decreases elems.len() - k,
        {
            assert(view[k as int] == elems[k as int]@);
            let toggles = read_number_list(&elems[k], '(', ')', 255);
            proof {
                let list = number_list(view[k as int], '(', ')', 255);
                assert(Seq::new(toggles.len() as nat, |i: int| toggles[i] as nat) =~= list);
                lemma_numbers_bounded(
                    spec_split(unwrapped(view[k as int], '(', ')'), ','),
                    255,
                    spec_split(unwrapped(view[k as int], '(', ')'), ',').len() as int,
                );
            }
            match read_button(size, &toggles) {
                Some(p) => {
                    buttons.push(p);
                },
                None => {
                    proof {
                        assert(button_patterns(view, size as nat, 1, k + 1) is None);
                        lemma_buttons_none_stays(view, size as nat, 1, k + 1, view.len() - 1);
                    }
                    return None;
                },
            }
            k += 1;
        }
        let wanted_lights = match wanted {
            Some(w) => w,
            None => {
                return None;
            },
        };
        if bits.len() == 0 || bits.len() != volts.len() {
            return None;
        }
        let mut voltages: Vec<usize> = Vec::new();
        let ghost list = number_list(view.last(), '{', '}', usize::MAX as nat);
        proof {
            lemma_numbers_bounded(
                spec_split(unwrapped(view.last(), '{', '}'), ','),
                usize::MAX as nat,
                spec_split(unwrapped(view.last(), '{', '}'), ',').len() as int,
            );
        }
        let mut v: usize = 0;
        while v < volts.len()
            invariant
                0 <= v <= volts.len(),
                volts.len() == list.len(),
                forall|i: int| 0 <= i < volts.len() ==> volts[i] == list[i],
                forall|i: int| 0 <= i < list.len() ==> list[i] <= usize::MAX,
                voltages.len() == v,
                forall|i: int| 0 <= i < v ==> voltages[i] == list[i] as usize,
            decreases volts.len() - v,
        {
            assert(volts[v as int] == list[v as int]);
            voltages.push(volts[v] as usize);
            v += 1;
        }
        let machine = Machine { wanted_lights, buttons, voltages };
        proof {
            assert(machine@.voltages =~= Seq::new(list.len(), |i: int| list[i] as usize));
        }
        Some(machine)
    }

    /// Reads a machine from its line, such as `[.##.] (3) (1,3) {3,5,4}`.
    pub fn from_str(s: &str) -> (r: Option<Machine>)
        ensures
            match spec_parse_machine(s@) {
                Some(m) => r is Some && r->Some_0@ == m,
                None => r is None,
            },
    {
        Machine::from_chars(&chars_of(s))
    }
}

/// The numbers that were read are no greater than the bound.
pub proof fn lemma_numbers_bounded(pieces: Seq<Seq<char>>, max: nat, k: int)
    ensures
        forall|i: int|
            0 <= i < numbers_among(pieces, max, k).len() ==> #[trigger] numbers_among(
                pieces,
                max,
                k,
            )[i] <= max,
    decreases k,
{
    if k > 0 {
        lemma_numbers_bounded(pieces, max, k - 1);
        let rest = numbers_among(pieces, max, k - 1);
        let all = numbers_among(pieces, max, k);
        assert forall|i: int| 0 <= i < all.len() implies #[trigger] all[i] <= max by {
            if i < rest.len() {
                assert(all[i] == rest[i]);
            }
        }
    }
}

/// The table of light patterns before any button was looked at: no press
/// shows no light, and no other pattern is known to be reachable.
pub open spec fn table_start() -> Seq<Option<nat>> {
    Seq::new(
        65536,
        |i: int|
            if i == 0 {
                Some(0nat)
            } else {
                None
            },
    )
}

/// The lesser of a count that may be missing and another count.
pub open spec fn fewer(a: Option<nat>, b: nat) -> nat {
    match a {
        Some(x) if x <= b => x,
        _ => b,
    }
}

/// The table after the button was tried on the pattern `j`: when `j` is
/// reachable, the pattern that the button turns it into is reachable with one
/// press more, unless fewer presses were known for it.
pub open spec fn pressed(dp: Seq<Option<nat>>, button: usize, j: int) -> Seq<Option<nat>> {
    match dp[j] {
        None => dp,
        Some(v) => {
            let new_xor = (j as usize) ^ button;
            if new_xor <= MAX_XOR {
                dp.update(new_xor as int, Some(fewer(dp[new_xor as int], v + 1)))
            } else {
                dp
            }
        },
    }
}

/// The table after the button was tried on the patterns below `MAX_XOR` down
/// to `j`, the greatest first.
pub open spec fn after_patterns(dp: Seq<Option<nat>>, button: usize, j: int) -> Seq<Option<nat>>
    decreases MAX_XOR - j,
{
    if j >= MAX_XOR {
        dp
    } else {
        pressed(after_patterns(dp, button, j + 1), button, j)
    }
}

/// The table after the first `k` buttons were tried, each on all patterns.
pub open spec fn after_buttons(buttons: Seq<usize>, k: int) -> Seq<Option<nat>>
    decreases k,
{
    if k <= 0 {
        table_start()
    } else {
        after_patterns(after_buttons(buttons, k - 1), buttons[k - 1], 0)
    }
}

/// The fewest presses known to show the pattern `num`, if it is reachable.
pub open spec fn min_presses(buttons: Seq<usize>, num: int) -> Option<nat> {
    after_buttons(buttons, buttons.len() as int)[num]
}

/// Whether every count of the table is at most `bound`, or is `bound + 1` and
/// stems from a count of at most `bound` for the pattern that the button turns
/// into it.
pub open spec fn counts_bounded(dp: Seq<Option<usize>>, button: usize, bound: nat) -> bool {
    forall|i: int|
        0 <= i < dp.len() ==> match #[trigger] dp[i] {
            None => true,
            Some(v) => v <= bound || (v == bound + 1 && ((i as usize) ^ button) < dp.len() && {
                let w = dp[((i as usize) ^ button) as int];
                w is Some && w->Some_0 <= bound
            }),
        }
}

/// The counts of a table as natural numbers.
pub open spec fn table_view(dp: Seq<Option<usize>>) -> Seq<Option<nat>> {
    Seq::new(
        dp.len(),
        |i: int|
            match dp[i] {
                Some(v) => Some(v as nat),
                None => None,
            },
    )
}

/// A button pressed twice changes nothing.
pub proof fn lemma_xor_twice(j: usize, b: usize)
    ensures
        (j ^ b) ^ b == j,
{
    assert((j ^ b) ^ b == j) by (bit_vector);
}

/// Tries the button on the pattern `j`.
fn try_button(dp: &mut Vec<Option<usize>>, button: usize, j: usize, bound: usize)
    requires
        old(dp).len() == MAX_XOR + 1,
        j < MAX_XOR,
        bound < usize::MAX,
        counts_bounded(old(dp)@, button, bound as nat),
    ensures
        final(dp).len() == MAX_XOR + 1,
        table_view(final(dp)@) == pressed(table_view(old(dp)@), button, j as int),
        counts_bounded(final(dp)@, button, bound as nat),
{
    let ghost before = dp@;
    let v = match dp[j] {
        Some(v) => v,
        None => {
            return ;
        },
    };
    let new_xor = j ^ button;
    if new_xor > MAX_XOR {
        return ;
    }
    proof {
        lemma_xor_twice(j, button);
    }
    if v > bound {
        // The pattern was reached with this button: pressing it again leads
        // back to where fewer presses are known.
        assert(table_view(before) =~= pressed(table_view(before), button, j as int));
        return ;
    }
    let candidate = v + 1;
    let best = match dp[new_xor] {
        Some(x) => if x <= candidate {
            x
        } else {
            candidate
        },
        None => candidate,
    };
    dp.set(new_xor, Some(best));
    proof {
        assert(table_view(dp@) =~= pressed(table_view(before), button, j as int));
        assert forall|i: int| 0 <= i < dp.len() implies match #[trigger] dp[i] {
            None => true,
            Some(c) => c <= bound || (c == bound + 1 && ((i as usize) ^ button) < dp.len() && {
                let w = dp[((i as usize) ^ button) as int];
                w is Some && w->Some_0 <= bound
            }),
        } by {
            if i != new_xor {
                assert(dp[i] == before[i]);
                if before[i] is Some && before[i]->Some_0 > bound {
                    let partner = ((i as usize) ^ button) as int;
                    assert(before[partner] is Some && before[partner]->Some_0 <= bound);
                    if partner == new_xor {
                        assert(best <= before[partner]->Some_0);
                    } else {
                        assert(dp[partner] == before[partner]);
                    }
                }
            } else {
                if best > bound {
                    assert(best == bound + 1);
                    assert(((new_xor as usize) ^ button) == j);
                    if j == new_xor {
                        assert(false);
                    }
                    assert(dp[j as int] == before[j as int]);
                }
            }
        }
    }
}

/// Tries the button on every pattern below `MAX_XOR`, the greatest first.
fn try_button_on_all(dp: &mut Vec<Option<usize>>, button: usize, bound: usize)
    requires
        old(dp).len() == MAX_XOR + 1,
        bound < usize::MAX,
        forall|i: int|
            0 <= i < old(dp).len() && (#[trigger] old(dp)[i]) is Some ==> old(dp)[i]->Some_0
                <= bound,
    ensures
        final(dp).len() == MAX_XOR + 1,
        table_view(final(dp)@) == after_patterns(table_view(old(dp)@), button, 0),
        forall|i: int|
            0 <= i < final(dp).len() && (#[trigger] final(dp)[i]) is Some ==> final(dp)[i]->Some_0
                <= bound + 1,
{
    let ghost start = table_view(dp@);
    let mut j: usize = MAX_XOR;
    assert(counts_bounded(dp@, button, bound as nat));
    while j > 0
        invariant
            0 <= j <= MAX_XOR,
            bound < usize::MAX,
            dp.len() == MAX_XOR + 1,
            table_view(dp@) == after_patterns(start, button, j as int),
            counts_bounded(dp@, button, bound as nat),
        decreases j,
    {
        j -= 1;
        try_button(dp, button, j, bound);
    }
}

impl Machine {
    /// The fewest button presses known to show the light pattern `num`, each
    /// button pressed once at most; `None` when the table knows no way.
    pub fn compute_min_presses_for_xor(&self, num: usize) -> (r: Option<usize>)
        requires
            num <= MAX_XOR,
        ensures
            nat_of(r) == min_presses(self.buttons@, num as int),
            r is Some ==> r->Some_0 <= self.buttons.len(),
    {
        let mut dp: Vec<Option<usize>> = Vec::new();
        while dp.len() <= MAX_XOR
            invariant
                dp.len() <= MAX_XOR + 1,
                forall|i: int| 0 <= i < dp.len() ==> dp[i] is None,
            decreases MAX_XOR + 1 - dp.len(),
        {
            dp.push(None);
        }
        dp.set(0, Some(0));
        assert(table_view(dp@) =~= table_start());
        let mut k: usize = 0;
        while k < self.buttons.len()
            invariant
                0 <= k <= self.buttons.len(),
                dp.len() == MAX_XOR + 1,
                table_view(dp@) == after_buttons(self.buttons@, k as int),
                forall|i: int|
                    0 <= i < dp.len() && (#[trigger] dp[i]) is Some ==> dp[i]->Some_0 <= k,
            decreases self.buttons.len() - k,
        {
            try_button_on_all(&mut dp, self.buttons[k], k);
            k += 1;
        }
        assert(table_view(dp@)[num as int] == match dp[num as int] {
            Some(v) => Some(v as nat),
            None => None,
        });
        dp[num]
    }
}

/// The machines that the first `k` lines denote, or `None` when one of them
/// denotes none.
pub open spec fn parse_machines(lines: Seq<Seq<char>>, k: int) -> Option<Seq<MachineView>>
    decreases k,
{
    if k <= 0 {
        Some(Seq::empty())
    } else {
        match (parse_machines(lines, k - 1), spec_parse_machine(lines[k - 1])) {
            (Some(ms), Some(m)) => Some(ms.push(m)),
            _ => None,
        }
    }
}

/// Once a line denotes no machine, the text denotes no machines.
pub proof fn lemma_parse_machines_none_stays(lines: Seq<Seq<char>>, k: int, n: int)
    requires
        0 <= k <= n,
        parse_machines(lines, k) is None,
    ensures
        parse_machines(lines, n) is None,
    decreases n - k,
{
    if k < n {
        lemma_parse_machines_none_stays(lines, k, n - 1);
    }
}

/// The machines that a text denotes, one per line.
pub open spec fn spec_machines(input: Seq<char>) -> Option<Seq<MachineView>> {
    parse_machines(spec_lines(input), spec_lines(input).len() as int)
}

/// The machines as mathematical values.
pub open spec fn machines_view(machines: Seq<Machine>) -> Seq<MachineView> {
    Seq::new(machines.len(), |i: int| machines[i]@)
}

/// Reads the machines, one per line.
pub fn read_machines(input: &str) -> (r: Option<Vec<Machine>>)
    ensures
        match spec_machines(input@) {
            Some(ms) => r is Some && machines_view(r->Some_0@) == ms,
            None => r is None,
        },
{
    let chars = chars_of(input);
    let ls = lines(&chars);
    let ghost all = spec_lines(input@);
    let mut out: Vec<Machine> = Vec::new();
    let mut i: usize = 0;
    assert(machines_view(out@) =~= Seq::<MachineView>::empty());
    while i < ls.len()
        invariant
            0 <= i <= ls.len(),
            pieces_view(ls@) == all,
            all == spec_lines(input@),
            parse_machines(all, i as int) == Some(machines_view(out@)),
        decreases ls.len() - i,
    {
        assert(all[i as int] == ls[i as int]@);
        match Machine::from_chars(&ls[i]) {
            Some(m) => {
                let ghost before = machines_view(out@);
                let ghost mv = m@;
                out.push(m);
                assert(machines_view(out@) =~= before.push(mv));
            },
            None => {
                proof {
                    assert(parse_machines(all, i + 1) is None);
                    lemma_parse_machines_none_stays(all, i + 1, all.len() as int);
                }
                return None;
            },
        }
        i += 1;
    }
    Some(out)
}

/// The sum over the first `k` machines of the fewest presses that show their
/// wanted lights; machines whose lights cannot be shown add nothing. `None`
/// when the wanted lights of a machine are no pattern of the table.
pub open spec fn light_presses(machines: Seq<MachineView>, k: int) -> Option<nat>
    decreases k,
{
    if k <= 0 {
        Some(0)
    } else {
        match light_presses(machines, k - 1) {
            Some(t) if machines[k - 1].wanted_lights <= MAX_XOR => Some(
                t + match min_presses(
                    machines[k - 1].buttons,
                    machines[k - 1].wanted_lights as int,
                ) {
                    Some(v) => v,
                    None => 0,
                },
            ),
            _ => None,
        }
    }
}

/// Once the wanted lights of a machine are no pattern of the table, there is
/// no sum.
pub proof fn lemma_light_presses_none_stays(machines: Seq<MachineView>, k: int, n: int)
    requires
        0 <= k <= n,
        light_presses(machines, k) is None,
    ensures
        light_presses(machines, n) is None,
    decreases n - k,
{
    if k < n {
        lemma_light_presses_none_stays(machines, k, n - 1);
    }
}

/// The fewest button presses that show the wanted lights, summed over the
/// machines of the text.
pub open spec fn spec_part1(input: Seq<char>) -> Option<nat> {
    match spec_machines(input) {
        None => None,
        Some(ms) => light_presses(ms, ms.len() as int),
    }
}

impl Machine {
    /// The fewest button presses that show the wanted lights.
    pub fn compute_xor_button_presses(&self) -> (r: Option<usize>)
        requires
            self.wanted_lights <= MAX_XOR,
        ensures
            nat_of(r) == min_presses(self.buttons@, self.wanted_lights as int),
            r is Some ==> r->Some_0 <= self.buttons.len(),
    {
        self.compute_min_presses_for_xor(self.wanted_lights)
    }
}

/// The fewest button presses that show the wanted lights, summed over the
/// machines of the text.
pub fn part1(input: &str) -> (r: Option<u128>)
    ensures
        nat_of_u128(r) == spec_part1(input@),
{
    let machines = match read_machines(input) {
        Some(ms) => ms,
        None => {
            return None;
        },
    };
    let ghost view = machines_view(machines@);
    let mut total: u128 = 0;
    let mut i: usize = 0;
    while i < machines.len()
        invariant
            0 <= i <= machines.len(),
            view == machines_view(machines@),
            spec_machines(input@) == Some(view),
            light_presses(view, i as int) == Some(total as nat),
            total <= i * 0x1_0000_0000_0000_0000,
        decreases machines.len() - i,
    {
        assert(view[i as int] == machines[i as int]@);
        if machines[i].wanted_lights > MAX_XOR {
            proof {
                assert(light_presses(view, i + 1) is None);
                lemma_light_presses_none_stays(view, i + 1, view.len() as int);
            }
            return None;
        }
        let presses = machines[i].compute_xor_button_presses();
        let ghost before = total;
        if let Some(count) = presses {
            total += count as u128;
        }
        proof {
            let m = view[i as int];
            assert(m.buttons == machines[i as int].buttons@);
            assert(m.wanted_lights == machines[i as int].wanted_lights);
            assert(light_presses(view, i + 1) == Some(
                before as nat + match min_presses(m.buttons, m.wanted_lights as int) {
                    Some(v) => v,
                    None => 0,
                },
            ));
        }
        i += 1;
    }
    Some(total)
}

/// Whether a button with this pattern raises counter `bit` of `n_bits`
/// counters.
pub open spec fn raises(button: usize, n_bits: nat, bit: nat) -> bool {
    button & (1usize << ((n_bits - 1 - bit) as usize)) != 0
}

/// The buttons among the first `k` that raise counter `bit`, by their place.
pub open spec fn raising_buttons(buttons: Seq<usize>, n_bits: nat, bit: nat, k: int) -> Seq<usize>
    decreases k,
{
    if k <= 0 {
        Seq::empty()
    } else {
        let rest = raising_buttons(buttons, n_bits, bit, k - 1);
        if raises(buttons[k - 1], n_bits, bit) {
            rest.push((k - 1) as usize)
        } else {
            rest
        }
    }
}

/// Whether the counters of a machine can be told from the patterns of its
/// buttons: there is no button, or no more counters than the machine word has
/// bits.
pub open spec fn counters_fit(m: MachineView) -> bool {
    m.buttons.len() == 0 || m.voltages.len() <= usize::BITS
}

/// The places of the buttons raise no counter that is not theirs.
pub proof fn lemma_raising_buttons_bounded(buttons: Seq<usize>, n_bits: nat, bit: nat, k: int)
    requires
        0 <= k <= buttons.len(),
    ensures
        forall|i: int|
            0 <= i < raising_buttons(buttons, n_bits, bit, k).len() ==> #[trigger] raising_buttons(
                buttons,
                n_bits,
                bit,
                k,
            )[i] < k,
    decreases k,
{
    if k > 0 {
        lemma_raising_buttons_bounded(buttons, n_bits, bit, k - 1);
        let rest = raising_buttons(buttons, n_bits, bit, k - 1);
        let all = raising_buttons(buttons, n_bits, bit, k);
        assert forall|i: int| 0 <= i < all.len() implies #[trigger] all[i] < k by {
            if i < rest.len() {
                assert(all[i] == rest[i]);
            }
        }
    }
}

/// For each counter the buttons that raise it; `None` when the counters
/// cannot be told from the patterns.
pub fn counter_rows(m: &Machine) -> (r: Option<Vec<Vec<usize>>>)
    ensures
        r is Some <==> counters_fit(m@),
        r is Some ==> r->Some_0.len() == m.voltages.len(),
        r is Some ==> forall|bit: int|
            0 <= bit < m.voltages.len() ==> (#[trigger] r->Some_0[bit])@ == raising_buttons(
                m.buttons@,
                m.voltages.len() as nat,
                bit as nat,
                m.buttons.len() as int,
            ),
{
    let n_bits = m.voltages.len();
    let n_buttons = m.buttons.len();
    if n_buttons > 0 && n_bits > usize::BITS as usize {
        return None;
    }
    let mut rows: Vec<Vec<usize>> = Vec::new();
    let mut bit: usize = 0;
    while bit < n_bits
        invariant
            0 <= bit <= n_bits,
            n_bits == m.voltages.len(),
            n_buttons == m.buttons.len(),
            n_buttons == 0 || n_bits <= usize::BITS,
            rows.len() == bit,
            forall|b: int|
                0 <= b < bit ==> (#[trigger] rows[b])@ == raising_buttons(
                    m.buttons@,
                    n_bits as nat,
                    b as nat,
                    n_buttons as int,
                ),
        decreases n_bits - bit,
    {
        let mut row: Vec<usize> = Vec::new();
        let mut j: usize = 0;
        while j < n_buttons
            invariant
                0 <= j <= n_buttons,
                bit < n_bits,
                n_buttons == m.buttons.len(),
                n_buttons == 0 || n_bits <= usize::BITS,
                row@ == raising_buttons(m.buttons@, n_bits as nat, bit as nat, j as int),
            decreases n_buttons - j,
        {
            let bit_position = n_bits - 1 - bit;
            if (m.buttons[j] & (1usize << bit_position)) != 0 {
                row.push(j);
            }
            j += 1;
        }
        rows.push(row);
        bit += 1;
    }
    Some(rows)
}

/// The joltages as the solver takes them: reduced to 32 bits.
pub fn counter_targets(voltages: &Vec<usize>) -> (r: Vec<i32>)
    ensures
        r.len() == voltages.len(),
        forall|i: int| 0 <= i < r.len() ==> r[i] == voltages[i] as i32,
{
    let mut out: Vec<i32> = Vec::new();
    let mut i: usize = 0;
    while i < voltages.len()
        invariant
            0 <= i <= voltages.len(),
            out.len() == i,
            forall|k: int| 0 <= k < i ==> out[k] == voltages[k] as i32,
        decreases voltages.len() - i,
    {
        out.push(#[verifier::truncate] (voltages[i] as i32));
        i += 1;
    }
    out
}

/// The presses that the solver of `good_lp` answers for `n_buttons` buttons,
/// the rows of buttons and the targets of the rows: one number for each
/// button, or `None` when it finds no answer.
pub uninterp spec fn solver_presses(n_buttons: nat, rows: Seq<Seq<usize>>, targets: Seq<i32>) -> Option<Seq<usize>>;

/// The views of the rows, row by row.
pub open spec fn rows_view(rows: Seq<Vec<usize>>) -> Seq<Seq<usize>> {
    Seq::new(rows.len(), |i: int| rows[i]@)
}

/// Asks the solver of `good_lp` for whole numbers of presses, one for each of
/// `n_buttons` buttons and none negative, with the least sum among those for
/// which the presses of the buttons of each row add up to the target of the
/// row: `ProblemVariables::add_vector`, `minimise`, `using(default_solver)`,
/// `with` for each row, `solve`, and `Solution::value` for each button.
/// The contract names what the solver answers and says of it only that an
/// answer has one number for each button; that the numbers meet the rows with
/// the least sum is the solver's concern and is not claimed here.
#[verifier::external_body]
fn solve_presses(n_buttons: usize, rows: &Vec<Vec<usize>>, targets: &Vec<i32>) -> (r: Option<
    Vec<usize>,
>)
    requires
        forall|i: int, k: int|
            0 <= i < rows.len() && 0 <= k < rows[i].len() ==> #[trigger] rows[i][k] < n_buttons,
    ensures
        match r {
            Some(v) => solver_presses(n_buttons as nat, rows_view(rows@), targets@) == Some(v@),
            None => solver_presses(n_buttons as nat, rows_view(rows@), targets@) is None,
        },
        r is Some ==> r->Some_0.len() == n_buttons,
{
    let mut vars = ProblemVariables::new();
    let x = vars.add_vector(variable().integer().min(0), n_buttons);
    let objective: Expression = x.iter().sum();
    let mut problem = vars.minimise(objective).using(default_solver);
    for (row, target) in rows.iter().zip(targets.iter()) {
        let lhs: Expression = row.iter().map(|&j| x[j]).sum();
        problem = problem.with(lhs.eq(*target));
    }
    let solution = problem.solve().ok()?;
    Some(x.iter().map(|&v| solution.value(v) as usize).collect())
}

/// The sum of the first `k` numbers.
pub open spec fn sum_of(presses: Seq<usize>, k: int) -> nat
    decreases k,
{
    if k <= 0 {
        0
    } else {
        (sum_of(presses, k - 1) + presses[k - 1]) as nat
    }
}

/// The number of presses of a solution: the sum over its buttons.
pub fn total_presses(solution: &Vec<usize>) -> (r: u128)
    ensures
        r == sum_of(solution@, solution.len() as int),
{
    let mut total: u128 = 0;
    let mut i: usize = 0;
    while i < solution.len()
        invariant
            0 <= i <= solution.len(),
            total == sum_of(solution@, i as int),
            total <= i * 0x1_0000_0000_0000_0000,
        decreases solution.len() - i,
    {
        total += solution[i] as u128;
        i += 1;
    }
    total
}

/// The running sum with the presses of one more machine; a machine without
/// solution adds nothing. `None` when the sum exceeds 128 bits.
pub fn add_presses(total: u128, solution: &Option<Vec<usize>>) -> (r: Option<u128>)
    ensures
        r == match solution {
            None => Some(total),
            Some(s) => if total + sum_of(s@, s.len() as int) <= u128::MAX {
                Some((total + sum_of(s@, s.len() as int)) as u128)
            } else {
                None
            },
        },
{
    match solution {
        None => Some(total),
        Some(s) => total.checked_add(total_presses(s)),
    }
}

/// For each counter of the machine the buttons that raise it.
pub open spec fn spec_counter_rows(m: MachineView) -> Seq<Seq<usize>> {
    Seq::new(
        m.voltages.len(),
        |bit: int|
            raising_buttons(m.buttons, m.voltages.len(), bit as nat, m.buttons.len() as int),
    )
}

/// The joltages of the machine as the solver takes them: reduced to 32 bits.
pub open spec fn spec_counter_targets(m: MachineView) -> Seq<i32> {
    Seq::new(m.voltages.len(), |i: int| m.voltages[i] as i32)
}

/// The presses of each button that the solver answers for the machine.
pub open spec fn spec_machine_presses(m: MachineView) -> Option<Seq<usize>> {
    solver_presses(m.buttons.len(), spec_counter_rows(m), spec_counter_targets(m))
}

impl Machine {
    /// The presses of each button that the solver finds for the joltages
    /// `target`, with the least sum; `None` when it finds none.
    pub fn min_presses_ilp(&self, target: &Vec<usize>) -> (r: Option<Vec<usize>>)
        requires
            target@ == self.voltages@,
            counters_fit(self@),
        ensures
            match r {
                Some(v) => spec_machine_presses(self@) == Some(v@),
                None => spec_machine_presses(self@) is None,
            },
            r is Some ==> r->Some_0.len() == self.buttons.len(),
    {
        let rows = match counter_rows(self) {
            Some(rows) => rows,
            None => {
                return None;
            },
        };
        let targets = counter_targets(target);
        proof {
            assert forall|i: int, k: int|
                0 <= i < rows.len() && 0 <= k < rows[i].len() implies #[trigger] rows[i][k]
                < self.buttons.len() by {
                lemma_raising_buttons_bounded(
                    self.buttons@,
                    self.voltages.len() as nat,
                    i as nat,
                    self.buttons.len() as int,
                );
            }
            assert(rows_view(rows@) =~= spec_counter_rows(self@));
            assert(targets@ =~= spec_counter_targets(self@));
        }
        solve_presses(self.buttons.len(), &rows, &targets)
    }

    /// The presses of each button that the solver finds for the wanted
    /// joltages.
    pub fn compute_sum_button_presses(&self) -> (r: Option<Vec<usize>>)
        requires
            counters_fit(self@),
        ensures
            match r {
                Some(v) => spec_machine_presses(self@) == Some(v@),
                None => spec_machine_presses(self@) is None,
            },
            r is Some ==> r->Some_0.len() == self.buttons.len(),
    {
        self.min_presses_ilp(&self.voltages)
    }
}

/// The sum over the first `k` machines of the presses that the solver answers;
/// machines without answer add nothing. `None` when the counters of a machine
/// cannot be told from the patterns of its buttons, or when the sum exceeds
/// 128 bits.
pub open spec fn joltage_presses(machines: Seq<MachineView>, k: int) -> Option<nat>
    decreases k,
{
    if k <= 0 {
        Some(0)
    } else {
        let m = machines[k - 1];
        let presses = match spec_machine_presses(m) {
            Some(s) => sum_of(s, s.len() as int),
            None => 0,
        };
        match joltage_presses(machines, k - 1) {
            Some(t) if counters_fit(m) && t + presses <= u128::MAX => Some(t + presses),
            _ => None,
        }
    }
}

/// Once a machine yields no sum, neither do the machines.
pub proof fn lemma_joltage_presses_none_stays(machines: Seq<MachineView>, k: int, n: int)
    requires
        0 <= k <= n,
        joltage_presses(machines, k) is None,
    ensures
        joltage_presses(machines, n) is None,
    decreases n - k,
{
    if k < n {
        lemma_joltage_presses_none_stays(machines, k, n - 1);
    }
}

/// The fewest button presses that bring the counters to the wanted joltages,
/// as the solver answers them, summed over the machines of the text.
pub open spec fn spec_part2(input: Seq<char>) -> Option<nat> {
    match spec_machines(input) {
        None => None,
        Some(ms) => joltage_presses(ms, ms.len() as int),
    }
}

/// The fewest button presses that bring the counters to the wanted joltages,
/// summed over the machines of the text for which the solver finds presses.
pub fn part2(input: &str) -> (r: Option<u128>)
    ensures
        nat_of_u128(r) == spec_part2(input@),
{
    let machines = match read_machines(input) {
        Some(ms) => ms,
        None => {
            return None;
        },
    };
    let ghost view = machines_view(machines@);
    let mut total: u128 = 0;
    let mut i: usize = 0;
    while i < machines.len()
        invariant
            0 <= i <= machines.len(),
            view == machines_view(machines@),
            spec_machines(input@) == Some(view),
            joltage_presses(view, i as int) == Some(total as nat),
        decreases machines.len() - i,
    {
        assert(view[i as int] == machines[i as int]@);
        if machines[i].buttons.len() > 0 && machines[i].voltages.len() > usize::BITS as usize {
            proof {
                assert(joltage_presses(view, i + 1) is None);
                lemma_joltage_presses_none_stays(view, i + 1, view.len() as int);
            }
            return None;
        }
        let solution = machines[i].compute_sum_button_presses();
        total = match add_presses(total, &solution) {
            Some(t) => t,
            None => {
                proof {
                    assert(joltage_presses(view, i + 1) is None);
                    lemma_joltage_presses_none_stays(view, i + 1, view.len() as int);
                }
                return None;
            },
        };
        i += 1;
    }
    Some(total)
}

} // verus!
