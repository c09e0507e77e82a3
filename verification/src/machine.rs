use vstd::prelude::*;
use vstd::string::*;
use crate::pattern::{all_captures, captures, captures_iter, first_captures};
use crate::text::{number, parse_number, pieces, split};
use crate::vector::{nats, table, zeros};
use crate::system::{
    build_system_from_buttons, buttons_from_system, extract_trivial_solutions, extracted,
    live_columns, simplified, simplify, transposed, width,
};
use crate::search::{iota, origin, Puzzle};
use crate::solver::{opt_nat, Solver};

verus! {

/// A vector of joltages, one for each dimension.
#[derive(Clone, Debug)]
pub struct State {
    pub joltages: Vec<u32>,
}

impl View for State {
    type V = Seq<nat>;

    /// The value as plain values.
    open spec fn view(&self) -> Seq<nat> {
        nats(self.joltages@)
    }
}

impl State {
    /// The state with the given joltages.
    pub fn new(joltages: Vec<u32>) -> (out: Self)
        ensures
            out.joltages == joltages,
    {
        State { joltages }
    }

    /// The sum of two states, dimension by dimension.
    pub fn add(&self, rhs: &Self) -> (out: Self)
        requires
            self.joltages@.len() <= rhs.joltages@.len(),
            forall|i: int|
                0 <= i < self.joltages@.len() ==> self.joltages@[i] + rhs.joltages@[i] <= u32::MAX,
        ensures
            out@.len() == self@.len(),
            forall|i: int| 0 <= i < self@.len() ==> out@[i] == self@[i] + rhs@[i],
    {
        let mut joltages: Vec<u32> = Vec::new();
        let mut i: usize = 0;
        while i < self.joltages.len()
            invariant
                i <= self.joltages@.len(),
                self.joltages@.len() <= rhs.joltages@.len(),
                forall|i: int|
                    0 <= i < self.joltages@.len() ==> self.joltages@[i] + rhs.joltages@[i]
                        <= u32::MAX,
                joltages@.len() == i,
                forall|j: int| 0 <= j < i ==> joltages@[j] == self.joltages@[j] + rhs.joltages@[j],
            decreases self.joltages@.len() - i,
        {
            joltages.push(self.joltages[i] + rhs.joltages[i]);
            i += 1;
        }
        State { joltages }
    }

    /// The state with each joltage multiplied by `rhs`.
    pub fn mul(&self, rhs: u32) -> (out: Self)
        requires
            forall|i: int| 0 <= i < self.joltages@.len() ==> self.joltages@[i] * rhs <= u32::MAX,
        ensures
            out@.len() == self@.len(),
            forall|i: int| 0 <= i < self@.len() ==> out@[i] == self@[i] * rhs,
    {
        let mut joltages: Vec<u32> = Vec::new();
        let mut i: usize = 0;
        while i < self.joltages.len()
            invariant
                i <= self.joltages@.len(),
                forall|i: int| 0 <= i < self.joltages@.len() ==> self.joltages@[i] * rhs <= u32::MAX,
                joltages@.len() == i,
                forall|j: int| 0 <= j < i ==> joltages@[j] == self.joltages@[j] * rhs,
            decreases self.joltages@.len() - i,
        {
            joltages.push(self.joltages[i] * rhs);
            i += 1;
        }
        State { joltages }
    }
}

impl PartialEq for State {
    /// Whether two states have the same joltages.
    fn eq(&self, other: &Self) -> (out: bool) {
        crate::solver::same(&self.joltages, &other.joltages)
    }
}

impl vstd::std_specs::cmp::PartialEqSpecImpl for State {
    open spec fn obeys_eq_spec() -> bool {
        true
    }

    open spec fn eq_spec(&self, other: &Self) -> bool {
        self.joltages@ == other.joltages@
    }
}

/// A machine: the joltages to reach, the buttons, each with what a press adds to each
/// dimension, and the indicator lights wanted, as a number of `width` bits.
pub struct Machine {
    pub target: State,
    pub buttons: Vec<State>,
    pub width: usize,
    pub indicators: u64,
}

/// The buttons as vectors of natural numbers.
pub open spec fn button_rows(buttons: Seq<State>) -> Seq<Seq<nat>> {
    Seq::new(buttons.len(), |k: int| buttons[k]@)
}

/// The presses that reduction finds forced, and the puzzle that it leaves to the
/// search: the system of the buttons is simplified, its rows with a single entry are
/// taken out and counted, and the columns left that are not all zero are the buttons.
pub open spec fn reduction(target: Seq<nat>, buttons: Seq<Seq<nat>>) -> (nat, Puzzle) {
    let system = simplified(transposed(buttons, target.len()), target);
    let rest = extracted(system.0, system.1);
    (rest.2, Puzzle { target: rest.1, buttons: live_columns(rest.0, width(rest.0)) })
}

/// What reduction and search return together: the forced presses and those that the
/// search finds for what is left, if it finds any.
pub open spec fn reduced_presses(target: Seq<nat>, buttons: Seq<Seq<nat>>) -> Option<nat> {
    let r = reduction(target, buttons);
    match r.1.search(origin(r.1.target.len()), iota(r.1.buttons.len())) {
        Some(n) => Some(r.0 + n),
        None => None,
    }
}

impl Machine {
    /// There are at most 64 dimensions and 64 buttons, and the target and each button
    /// have one joltage for each dimension.
    pub open spec fn wf(&self) -> bool {
        &&& self.width <= 64
        &&& self.buttons@.len() <= 64
        &&& self.target.joltages@.len() == self.width
        &&& forall|k: int|
            0 <= k < self.buttons@.len() ==> (#[trigger] self.buttons@[k]).joltages@.len()
                == self.width
    }

    /// What reduction leaves of the machine: the buttons and the target for the
    /// search, and the presses that it finds forced.
    pub fn reduce(&self) -> (out: (Vec<Vec<u32>>, Vec<u32>, u64))
        requires
            self.wf(),
        ensures
            out.2 == reduction(self.target@, button_rows(self.buttons@)).0,
            (Puzzle { target: nats(out.1@), buttons: table(out.0@) }) == reduction(
                self.target@,
                button_rows(self.buttons@),
            ).1,
            out.0@.len() <= 64,
            out.2 <= 64 * u32::MAX,
            forall|k: int| 0 <= k < out.0@.len() ==> (#[trigger] out.0@[k])@.len() == out.1@.len(),
    {
        let rhs = self.target.joltages.clone();
        let mut coefficients: Vec<Vec<u32>> = Vec::new();
        let mut k: usize = 0;
        while k < self.buttons.len()
            invariant
                k <= self.buttons@.len(),
                self.wf(),
                coefficients@.len() == k,
                forall|j: int| 0 <= j < k ==> (#[trigger] coefficients@[j])@ == self.buttons@[j].joltages@,
            decreases self.buttons@.len() - k,
        {
            coefficients.push(self.buttons[k].joltages.clone());
            k += 1;
        }
        proof {
            assert(table(coefficients@) =~= button_rows(self.buttons@));
        }
        let (coefficients, rhs) = build_system_from_buttons(coefficients, rhs);
        let (coefficients, rhs) = simplify(coefficients, rhs);
        let (coefficients, rhs, count) = extract_trivial_solutions(coefficients, rhs);
        let (buttons, target) = buttons_from_system(coefficients, rhs);
        proof {
            assert(count <= 64 * u32::MAX) by (nonlinear_arith)
                requires
                    count <= self.width * u32::MAX,
                    self.width <= 64,
            ;
        }
        (buttons, target, count)
    }

    /// The fewest presses that bring the machine to its target joltages, as reduction
    /// and search find them; `None` if the search finds none. For a machine whose
    /// buttons add at most one to a dimension and whose target some presses reach,
    /// that is the least number of presses that reach the target.
    pub fn fewest_presses(&self) -> (out: Option<u64>)
        requires
            self.wf(),
        ensures
            opt_nat(out) == reduced_presses(self.target@, button_rows(self.buttons@)),
            crate::reduction::binary_and_solvable(self.target@, button_rows(self.buttons@)) ==> out
                is Some && (Puzzle {
                target: self.target@,
                buttons: button_rows(self.buttons@),
            }).is_fewest(out->Some_0 as nat),
    {
        proof {
            if crate::reduction::binary_and_solvable(self.target@, button_rows(self.buttons@)) {
                crate::reduction::lemma_reduced_presses_fewest(
                    self.target@,
                    button_rows(self.buttons@),
                );
            }
        }
        let (buttons, target, count) = self.reduce();
        let solver = Solver::new(target, buttons);
        match solver.solve() {
            Some(n) => {
                proof {
                    assert(n <= 64 * u32::MAX) by (nonlinear_arith)
                        requires
                            n <= solver@.buttons.len() * u32::MAX,
                            solver@.buttons.len() <= 64,
                    ;
                }
                Some(count + n)
            },
            None => None,
        }
    }
}

/// The mark of a light: `#` if it is on, `.` if it is off.
pub open spec fn mark(bit: nat) -> char {
    if bit == 0 {
        '.'
    } else {
        '#'
    }
}

/// The lights of a number: its binary digits, the highest first, without leading
/// zeros but for zero itself.
pub open spec fn lights(n: nat) -> Seq<char>
    decreases n,
{
    if n < 2 {
        seq![mark(n)]
    } else {
        lights(n / 2).push(mark(n % 2))
    }
}

/// The indicator lights in brackets: the lights of the number, with lights that are
/// off in front of them until there are `width` at least.
pub open spec fn indicator_text(indicators: nat, width: nat) -> Seq<char> {
    let body = lights(indicators);
    let pad = if body.len() < width {
        (width - body.len()) as nat
    } else {
        0
    };
    seq!['['] + Seq::new(pad, |i: int| '.') + body + seq![']']
}

/// Appends the lights of a number.
pub fn push_lights(n: u64, out: &mut Vec<char>)
    ensures
        final(out)@ == old(out)@ + lights(n as nat),
    decreases n,
{
    if n >= 2 {
        push_lights(n / 2, out);
    }
    let c = if n % 2 == 0 { '.' } else { '#' };
    out.push(c);
    proof {
        if n < 2 {
            assert(out@ =~= old(out)@ + lights(n as nat));
        } else {
            assert(out@ =~= old(out)@ + lights(n as nat));
        }
    }
}

/// The text of a sequence of characters.
///
/// Trusted: the body collects the characters into a `String` with std's
/// `Iterator::collect`; the contract says that the string holds those characters in
/// their order.
#[verifier::external_body]
fn text_of(chars: &Vec<char>) -> (out: String)
    ensures
        out@ == chars@,
{
    chars.iter().collect()
}

/// The characters of the indicator lights in brackets.
pub fn indicator_chars(indicators: u64, width: usize) -> (out: Vec<char>)
    ensures
        out@ == indicator_text(indicators as nat, width as nat),
{
    let mut body: Vec<char> = Vec::new();
    push_lights(indicators, &mut body);
    proof {
        assert(body@ =~= lights(indicators as nat));
    }
    let pad: usize = if body.len() < width {
        width - body.len()
    } else {
        0
    };
    let mut out: Vec<char> = Vec::new();
    out.push('[');
    let mut i: usize = 0;
    while i < pad
        invariant
            i <= pad,
            out@ == seq!['['] + Seq::new(i as nat, |j: int| '.'),
        decreases pad - i,
    {
        out.push('.');
        i += 1;
        proof {
            assert(out@ =~= seq!['['] + Seq::new(i as nat, |j: int| '.'));
        }
    }
    let ghost front = out@;
    let mut j: usize = 0;
    while j < body.len()
        invariant
            j <= body@.len(),
            out@ == front + body@.take(j as int),
        decreases body@.len() - j,
    {
        out.push(body[j]);
        j += 1;
        proof {
            assert(out@ =~= front + body@.take(j as int));
        }
    }
    out.push(']');
    proof {
        assert(body@.take(j as int) =~= body@);
        assert(out@ =~= indicator_text(indicators as nat, width as nat));
    }
    out
}

/// The indicator lights in brackets, as in a machine's record: `#` for a light that
/// is on and `.` for one that is off, the highest bit first, `width` lights at least.
pub fn fmt_indicators(indicators: u64, width: usize) -> (out: String)
    ensures
        out@ == indicator_text(indicators as nat, width as nat),
{
    let chars = indicator_chars(indicators, width);
    text_of(&chars)
}

/// Why a record gives no machine.
#[derive(Debug, PartialEq, Eq, Structural)]
pub enum ParseMachineError {
    /// The record is not made like a machine's record.
    InvalidSyntax,
    /// A number of the record is no number, or no number that fits.
    InvalidNumber,
}

/// What a machine holds, as plain values.
pub struct MachineView {
    pub target: Seq<nat>,
    pub buttons: Seq<Seq<nat>>,
    pub width: nat,
    pub indicators: u64,
}

impl View for Machine {
    type V = MachineView;

    /// The value as plain values.
    open spec fn view(&self) -> MachineView {
        MachineView {
            target: self.target@,
            buttons: button_rows(self.buttons@),
            width: self.width as nat,
            indicators: self.indicators,
        }
    }
}

/// The pattern of a machine's record: the lights in square brackets, the buttons, and
/// the joltages in braces.
pub open spec fn record_pattern() -> Seq<char> {
    r"\[(?<target>[\.#]{1,64})\] (?<buttons>.+?) (?P<joltages>\{([\d,]+)\})"@
}

/// The pattern of a button: dimension indices in round brackets.
pub open spec fn button_pattern() -> Seq<char> {
    r"\((?<indices>[\d,]+)\)"@
}

/// The lights as a number: a bit for each mark, the first mark highest, set where
/// the mark is `#`.
pub open spec fn lit(marks: Seq<u8>) -> u64
    decreases marks.len(),
{
    if marks.len() == 0 {
        0
    } else {
        (lit(marks.drop_last()) << 1) | (if marks.last() == 35 {
            1u64
        } else {
            0u64
        })
    }
}

/// The button that adds one to each of the dimensions that the tokens name, if each
/// token is the number of a dimension.
pub open spec fn button_of(tokens: Seq<Seq<u8>>, width: nat) -> Option<Seq<nat>>
    decreases tokens.len(),
{
    if tokens.len() == 0 {
        Some(Seq::new(width, |i: int| 0nat))
    } else {
        match (button_of(tokens.drop_last(), width), number(tokens.last(), usize::MAX as nat)) {
            (Some(b), Some(index)) => if index < width {
                Some(b.update(index as int, 1))
            } else {
                None
            },
            _ => None,
        }
    }
}

/// The buttons that the groups of indices give, if each gives one.
pub open spec fn buttons_of(groups: Seq<Seq<u8>>, width: nat) -> Option<Seq<Seq<nat>>>
    decreases groups.len(),
{
    if groups.len() == 0 {
        Some(Seq::empty())
    } else {
        match (buttons_of(groups.drop_last(), width), button_of(pieces(groups.last(), 44), width)) {
            (Some(bs), Some(b)) => Some(bs.push(b)),
            _ => None,
        }
    }
}

/// The numbers that the tokens write, if each writes one of `max` at most.
pub open spec fn numbers_of(tokens: Seq<Seq<u8>>, max: nat) -> Option<Seq<nat>>
    decreases tokens.len(),
{
    if tokens.len() == 0 {
        Some(Seq::empty())
    } else {
        match (numbers_of(tokens.drop_last(), max), number(tokens.last(), max)) {
            (Some(ns), Some(n)) => Some(ns.push(n)),
            _ => None,
        }
    }
}

/// The byte is an opening or a closing brace.
pub open spec fn is_brace(b: u8) -> bool {
    b == 123 || b == 125
}

/// The text without the braces at its start.
pub open spec fn without_front(s: Seq<u8>) -> Seq<u8>
    decreases s.len(),
{
    if s.len() > 0 && is_brace(s[0]) {
        without_front(s.skip(1))
    } else {
        s
    }
}

/// The text without the braces at its end.
pub open spec fn without_back(s: Seq<u8>) -> Seq<u8>
    decreases s.len(),
{
    if s.len() > 0 && is_brace(s.last()) {
        without_back(s.drop_last())
    } else {
        s
    }
}

/// The text without the braces at its start and at its end.
pub open spec fn unbraced(s: Seq<u8>) -> Seq<u8> {
    without_back(without_front(s))
}

/// The machine that the parts of a record give: the lights, the index lists of the
/// buttons and the joltages in braces. A number that is none, and an index that is
/// no dimension, give `InvalidNumber`.
pub open spec fn assembled(lights: Seq<u8>, groups: Seq<Seq<u8>>, joltages: Seq<u8>) -> Result<
    MachineView,
    ParseMachineError,
> {
    match (
        buttons_of(groups, lights.len()),
        numbers_of(pieces(unbraced(joltages), 44), u32::MAX as nat),
    ) {
        (Some(buttons), Some(target)) => Ok(
            MachineView { target, buttons, width: lights.len(), indicators: lit(lights) },
        ),
        _ => Err(ParseMachineError::InvalidNumber),
    }
}

/// The group of indices of each match of the button pattern, if each match has one.
pub open spec fn index_groups(matches: Seq<Seq<Option<Seq<u8>>>>) -> Option<Seq<Seq<u8>>>
    decreases matches.len(),
{
    if matches.len() == 0 {
        Some(Seq::empty())
    } else {
        let last = matches.last();
        match index_groups(matches.drop_last()) {
            Some(gs) => if last.len() >= 2 && last[1] is Some {
                Some(gs.push(last[1]->Some_0))
            } else {
                None
            },
            None => None,
        }
    }
}

/// The machine that a record gives, from what the patterns find in it.
pub open spec fn record_of(text: Seq<u8>) -> Result<MachineView, ParseMachineError> {
    match first_captures(record_pattern(), text) {
        None => Err(ParseMachineError::InvalidSyntax),
        Some(parts) => if parts.len() >= 4 && parts[1] is Some && parts[2] is Some
            && parts[3] is Some {
            match index_groups(all_captures(button_pattern(), parts[2]->Some_0)) {
                Some(groups) => assembled(parts[1]->Some_0, groups, parts[3]->Some_0),
                None => Err(ParseMachineError::InvalidSyntax),
            }
        } else {
            Err(ParseMachineError::InvalidSyntax)
        },
    }
}

/// The lights as a number.
pub fn read_lights(marks: &Vec<u8>) -> (out: u64)
    ensures
        out == lit(marks@),
{
    let mut acc: u64 = 0;
    let mut i: usize = 0;
    while i < marks.len()
        invariant
            i <= marks@.len(),
            acc == lit(marks@.take(i as int)),
        decreases marks@.len() - i,
    {
        proof {
            assert(marks@.take(i + 1).drop_last() =~= marks@.take(i as int));
        }
        let bit: u64 = if marks[i] == 35 { 1 } else { 0 };
        acc = (acc << 1) | bit;
        i += 1;
    }
    proof {
        assert(marks@.take(i as int) =~= marks@);
    }
    acc
}

/// The button that adds one to each of the dimensions that the tokens name.
pub fn read_button(tokens: &Vec<Vec<u8>>, width: usize) -> (out: Option<Vec<u32>>)
    ensures
        match out {
            Some(b) => button_of(crate::text::views(tokens@), width as nat) == Some(nats(b@)),
            None => button_of(crate::text::views(tokens@), width as nat) is None,
        },
{
    let ghost all = crate::text::views(tokens@);
    let mut joltages = zeros(width);
    let mut i: usize = 0;
    proof {
        assert(nats(joltages@) =~= Seq::new(width as nat, |i: int| 0nat));
    }
    while i < tokens.len()
        invariant
            i <= tokens@.len(),
            all == crate::text::views(tokens@),
            joltages@.len() == width,
            button_of(all.take(i as int), width as nat) == Some(nats(joltages@)),
        decreases tokens@.len() - i,
    {
        proof {
            assert(all.take(i + 1).drop_last() =~= all.take(i as int));
            assert(all.take(i + 1).last() == tokens@[i as int]@);
        }
        let ghost before = nats(joltages@);
        match parse_number(&tokens[i], usize::MAX as u64) {
            Some(index) => {
                if index >= width as u64 {
                    proof {
                        lemma_button_none(all, width as nat, i + 1);
                    }
                    return None;
                }
                joltages[index as usize] = 1;
                proof {
                    assert(nats(joltages@) =~= before.update(index as int, 1));
                }
            },
            None => {
                proof {
                    lemma_button_none(all, width as nat, i + 1);
                }
                return None;
            },
        }
        i += 1;
    }
    proof {
        assert(all.take(i as int) =~= all);
    }
    Some(joltages)
}

/// A list of tokens gives no button if a part of it from the start gives none.
pub proof fn lemma_button_none(tokens: Seq<Seq<u8>>, width: nat, n: int)
    requires
        0 <= n <= tokens.len(),
        button_of(tokens.take(n), width) is None,
    ensures
        button_of(tokens, width) is None,
    decreases tokens.len() - n,
{
    if n < tokens.len() {
        assert(tokens.take(n + 1).drop_last() =~= tokens.take(n));
        lemma_button_none(tokens, width, n + 1);
    } else {
        assert(tokens.take(n) =~= tokens);
    }
}

/// A list of tokens gives no numbers if a part of it from the start gives none.
pub proof fn lemma_numbers_none(tokens: Seq<Seq<u8>>, max: nat, n: int)
    requires
        0 <= n <= tokens.len(),
        numbers_of(tokens.take(n), max) is None,
    ensures
        numbers_of(tokens, max) is None,
    decreases tokens.len() - n,
{
    if n < tokens.len() {
        assert(tokens.take(n + 1).drop_last() =~= tokens.take(n));
        lemma_numbers_none(tokens, max, n + 1);
    } else {
        assert(tokens.take(n) =~= tokens);
    }
}

/// A list of groups gives no buttons if a part of it from the start gives none.
pub proof fn lemma_buttons_none(groups: Seq<Seq<u8>>, width: nat, n: int)
    requires
        0 <= n <= groups.len(),
        buttons_of(groups.take(n), width) is None,
    ensures
        buttons_of(groups, width) is None,
    decreases groups.len() - n,
{
    if n < groups.len() {
        assert(groups.take(n + 1).drop_last() =~= groups.take(n));
        lemma_buttons_none(groups, width, n + 1);
    } else {
        assert(groups.take(n) =~= groups);
    }
}

/// The numbers that the tokens write, each of `u32::MAX` at most.
pub fn read_numbers(tokens: &Vec<Vec<u8>>) -> (out: Option<Vec<u32>>)
    ensures
        match out {
            Some(ns) => numbers_of(crate::text::views(tokens@), u32::MAX as nat) == Some(nats(ns@)),
            None => numbers_of(crate::text::views(tokens@), u32::MAX as nat) is None,
        },
{
    let ghost all = crate::text::views(tokens@);
    let mut out: Vec<u32> = Vec::new();
    let mut i: usize = 0;
    proof {
        assert(nats(out@) =~= Seq::<nat>::empty());
    }
    while i < tokens.len()
        invariant
            i <= tokens@.len(),
            all == crate::text::views(tokens@),
            numbers_of(all.take(i as int), u32::MAX as nat) == Some(nats(out@)),
        decreases tokens@.len() - i,
    {
        proof {
            assert(all.take(i + 1).drop_last() =~= all.take(i as int));
            assert(all.take(i + 1).last() == tokens@[i as int]@);
        }
        let ghost before = nats(out@);
        match parse_number(&tokens[i], 0xffff_ffff) {
            Some(n) => {
                out.push(n as u32);
                proof {
                    assert(nats(out@) =~= before.push(n as nat));
                }
            },
            None => {
                proof {
                    lemma_numbers_none(all, u32::MAX as nat, i + 1);
                }
                return None;
            },
        }
        i += 1;
    }
    proof {
        assert(all.take(i as int) =~= all);
    }
    Some(out)
}

/// The text without the braces at its start and at its end.
pub fn strip_braces(text: &Vec<u8>) -> (out: Vec<u8>)
    ensures
        out@ == unbraced(text@),
{
    let mut from: usize = 0;
    proof {
        assert(text@.skip(0) =~= text@);
    }
    while from < text.len() && (text[from] == 123 || text[from] == 125)
        invariant
            from <= text@.len(),
            without_front(text@) == without_front(text@.skip(from as int)),
        decreases text@.len() - from,
    {
        proof {
            assert(text@.skip(from as int).skip(1) =~= text@.skip(from + 1));
        }
        from += 1;
    }
    let ghost rest = text@.skip(from as int);
    proof {
        assert(text@.skip(0) =~= text@);
        assert(without_front(text@) == rest) by {
            if from < text@.len() {
                assert(rest[0] == text@[from as int]);
            }
        }
    }
    let mut to: usize = text.len();
    while to > from && (text[to - 1] == 123 || text[to - 1] == 125)
        invariant
            from <= to <= text@.len(),
            rest == text@.skip(from as int),
            without_back(rest) == without_back(text@.subrange(from as int, to as int)),
        decreases to,
    {
        proof {
            assert(text@.subrange(from as int, to as int).drop_last() =~= text@.subrange(
                from as int,
                to - 1,
            ));
        }
        to -= 1;
    }
    let ghost kept = text@.subrange(from as int, to as int);
    proof {
        assert(text@.subrange(from as int, text@.len() as int) =~= rest);
        assert(without_back(kept) == kept) by {
            if to > from {
                assert(kept.last() == text@[to - 1]);
            }
        }
    }
    let mut out: Vec<u8> = Vec::new();
    let mut i: usize = from;
    while i < to
        invariant
            from <= i <= to <= text@.len(),
            out@ == text@.subrange(from as int, i as int),
        decreases to - i,
    {
        out.push(text[i]);
        i += 1;
        proof {
            assert(out@ =~= text@.subrange(from as int, i as int));
        }
    }
    out
}

/// The group of indices of each match of the button pattern.
pub fn collect_groups(matches: &Vec<Vec<Option<Vec<u8>>>>) -> (out: Option<Vec<Vec<u8>>>)
    ensures
        match out {
            Some(groups) => index_groups(crate::pattern::match_views(matches@)) == Some(
                crate::text::views(groups@),
            ),
            None => index_groups(crate::pattern::match_views(matches@)) is None,
        },
{
    let ghost found = crate::pattern::match_views(matches@);
    let mut groups: Vec<Vec<u8>> = Vec::new();
    let mut i: usize = 0;
    proof {
        assert(crate::text::views(groups@) =~= Seq::<Seq<u8>>::empty());
    }
    while i < matches.len()
        invariant
            i <= matches@.len(),
            found == crate::pattern::match_views(matches@),
            index_groups(found.take(i as int)) == Some(crate::text::views(groups@)),
        decreases matches@.len() - i,
    {
        proof {
            assert(found.take(i + 1).drop_last() =~= found.take(i as int));
            assert(found.take(i + 1).last() == found[i as int]);
        }
        let ghost before = crate::text::views(groups@);
        if matches[i].len() < 2 {
            proof {
                lemma_groups_none(found, i + 1);
            }
            return None;
        }
        match &matches[i][1] {
            Some(g) => {
                groups.push(g.clone());
                proof {
                    assert(crate::text::views(groups@) =~= before.push(g@));
                }
            },
            None => {
                proof {
                    lemma_groups_none(found, i + 1);
                }
                return None;
            },
        }
        i += 1;
    }
    proof {
        assert(found.take(i as int) =~= found);
    }
    Some(groups)
}

impl Machine {
    /// The machine that the parts of a record give: the lights, the index lists of
    /// the buttons and the joltages in braces.
    pub fn assemble(lights: &Vec<u8>, groups: &Vec<Vec<u8>>, joltages: &Vec<u8>) -> (out: Result<
        Machine,
        ParseMachineError,
    >)
        ensures
            match out {
                Ok(m) => assembled(lights@, crate::text::views(groups@), joltages@) == Ok::<
                    MachineView,
                    ParseMachineError,
                >(m@),
                Err(e) => assembled(lights@, crate::text::views(groups@), joltages@) == Err::<
                    MachineView,
                    ParseMachineError,
                >(e),
            },
    {
        let ghost all = crate::text::views(groups@);
        let width = lights.len();
        let indicators = read_lights(lights);
        let mut buttons: Vec<State> = Vec::new();
        let mut failed = false;
        let mut i: usize = 0;
        proof {
            assert(button_rows(buttons@) =~= Seq::<Seq<nat>>::empty());
        }
        while i < groups.len() && !failed
            invariant
                i <= groups@.len(),
                all == crate::text::views(groups@),
                failed ==> buttons_of(all, width as nat) is None,
                !failed ==> buttons_of(all.take(i as int), width as nat) == Some(
                    button_rows(buttons@),
                ),
            decreases groups@.len() - i + if failed { 0int } else { 1int },
        {
            proof {
                assert(all.take(i + 1).drop_last() =~= all.take(i as int));
                assert(all.take(i + 1).last() == groups@[i as int]@);
            }
            let ghost before = button_rows(buttons@);
            let tokens = split(&groups[i], 44);
            match read_button(&tokens, width) {
                Some(b) => {
                    buttons.push(State::new(b));
                    proof {
                        assert(button_rows(buttons@) =~= before.push(nats(b@)));
                    }
                    i += 1;
                },
                None => {
                    proof {
                        lemma_buttons_none(all, width as nat, i + 1);
                    }
                    failed = true;
                },
            }
        }
        proof {
            if !failed {
                assert(all.take(i as int) =~= all);
            }
        }
        let inner = strip_braces(joltages);
        let tokens = split(&inner, 44);
        match read_numbers(&tokens) {
            None => Err(ParseMachineError::InvalidNumber),
            Some(numbers) => {
                if failed {
                    Err(ParseMachineError::InvalidNumber)
                } else {
                    Ok(Machine { target: State::new(numbers), buttons, width, indicators })
                }
            },
        }
    }

    /// Reads a machine from its record: the lights in square brackets, the buttons as
    /// lists of dimension indices in round brackets, and the joltages in braces.
    pub fn from_str(s: &str) -> (out: Result<Machine, ParseMachineError>)
        ensures
            match out {
                Ok(m) => record_of(s.spec_bytes()) == Ok::<MachineView, ParseMachineError>(m@),
                Err(e) => record_of(s.spec_bytes()) == Err::<MachineView, ParseMachineError>(e),
            },
    {
        let text = s.as_bytes_vec();
        let parts = match captures(
            r"\[(?<target>[\.#]{1,64})\] (?<buttons>.+?) (?P<joltages>\{([\d,]+)\})",
            &text,
        ) {
            None => {
                return Err(ParseMachineError::InvalidSyntax);
            },
            Some(parts) => parts,
        };
        if parts.len() < 4 {
            return Err(ParseMachineError::InvalidSyntax);
        }
        match (&parts[1], &parts[2], &parts[3]) {
            (Some(lights), Some(buttons), Some(joltages)) => {
                let matches = captures_iter(r"\((?<indices>[\d,]+)\)", buttons);
                match collect_groups(&matches) {
                    Some(groups) => Machine::assemble(lights, &groups, joltages),
                    None => Err(ParseMachineError::InvalidSyntax),
                }
            },
            _ => Err(ParseMachineError::InvalidSyntax),
        }
    }
}

/// The matches give no index groups if a part of them from the start gives none.
pub proof fn lemma_groups_none(matches: Seq<Seq<Option<Seq<u8>>>>, n: int)
    requires
        0 <= n <= matches.len(),
        index_groups(matches.take(n)) is None,
    ensures
        index_groups(matches) is None,
    decreases matches.len() - n,
{
    if n < matches.len() {
        assert(matches.take(n + 1).drop_last() =~= matches.take(n));
        lemma_groups_none(matches, n + 1);
    } else {
        assert(matches.take(n) =~= matches);
    }
}

} // verus!
