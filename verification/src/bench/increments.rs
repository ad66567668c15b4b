//! The methods of the increment benchmark, its cases and its reports.
use vstd::prelude::*;

use crate::bench::incr::{atomic_incr_cas, atomic_incr_max, fmt_num, in_thousands, SweepConfig};
use crate::text::{chars_of, decimal, decimal_text, push_char, same, texts};

verus! {

/// A way to increment the counter. The last letter of two of them stands for
/// waiting between attempts.
#[derive(Clone, Copy, Debug, PartialEq, Eq, Structural)]
pub enum IncrMethod {
    Cas,
    Casb,
    Faa,
    Max,
    Maxb,
}

impl IncrMethod {
    pub open spec fn label(self) -> Seq<char> {
        match self {
            IncrMethod::Cas => "CAS"@,
            IncrMethod::Casb => "CASB"@,
            IncrMethod::Faa => "FAA"@,
            IncrMethod::Max => "MAX"@,
            IncrMethod::Maxb => "MAXB"@,
        }
    }

    pub fn name(self) -> (name: &'static str)
        ensures
            name@ == self.label(),
    {
        match self {
            IncrMethod::Cas => "CAS",
            IncrMethod::Casb => "CASB",
            IncrMethod::Faa => "FAA",
            IncrMethod::Max => "MAX",
            IncrMethod::Maxb => "MAXB",
        }
    }

    /// One increment. Undisturbed, every method succeeds at once.
    pub fn apply(self, counter: &mut usize)
        requires
            *old(counter) < usize::MAX,
        ensures
            *final(counter) == *old(counter) + 1,
    {
        match self {
            IncrMethod::Cas => atomic_incr_cas(counter),
            IncrMethod::Casb => atomic_incr_cas(counter),
            IncrMethod::Faa => {
                *counter = *counter + 1;
            },
            IncrMethod::Max => atomic_incr_max(counter),
            IncrMethod::Maxb => atomic_incr_max(counter),
        }
    }
}

/// All methods, in the order in which they are measured.
pub open spec fn methods() -> Seq<IncrMethod> {
    seq![IncrMethod::Cas, IncrMethod::Casb, IncrMethod::Faa, IncrMethod::Max, IncrMethod::Maxb]
}

/// All methods, in the order in which they are measured.
pub fn atomic_incr_methods() -> (list: Vec<IncrMethod>)
    ensures
        list@ == methods(),
{
    let list = vec![
        IncrMethod::Cas,
        IncrMethod::Casb,
        IncrMethod::Faa,
        IncrMethod::Max,
        IncrMethod::Maxb,
    ];
    assert(list@ =~= methods());
    list
}

/// What all threads together add, if a machine word holds it.
pub fn total_increments(threads: usize, increments_per_thread: usize) -> (total: Option<usize>)
    ensures
        match total {
            Some(n) => n == threads * increments_per_thread,
            None => threads * increments_per_thread > usize::MAX,
        },
{
    threads.checked_mul(increments_per_thread)
}

/// Increments a counter as often as all threads together would.
pub fn run_increments(method: IncrMethod, total: usize) -> (count: usize)
    ensures
        count == total,
{
    let mut count: usize = 0;
    while count < total
        invariant
            count <= total,
        decreases total - count,
    {
        method.apply(&mut count);
    }
    count
}

/// What a command line asks for, and at which argument its options start.
#[derive(Clone, Copy, Debug, PartialEq, Eq, Structural)]
pub enum IncrCommand {
    Help,
    Once(usize),
    Sweep(usize),
}

/// The first argument names the command; options without one belong to a
/// single run.
pub open spec fn command_of(args: Seq<Seq<char>>) -> IncrCommand {
    if args.len() == 0 {
        IncrCommand::Once(0)
    } else if args[0] == "-h"@ || args[0] == "--help"@ || args[0] == "help"@ {
        IncrCommand::Help
    } else if args[0] == "once"@ {
        IncrCommand::Once(1)
    } else if args[0] == "sweep"@ {
        IncrCommand::Sweep(1)
    } else {
        IncrCommand::Once(0)
    }
}

/// What a command line asks for.
pub fn pick_command(args: &Vec<String>) -> (command: IncrCommand)
    ensures
        command == command_of(texts(args@)),
        command matches IncrCommand::Once(n) ==> n <= args@.len(),
        command matches IncrCommand::Sweep(n) ==> n <= args@.len(),
{
    if args.len() == 0 {
        return IncrCommand::Once(0);
    }
    assert(texts(args@)[0] == args@[0]@);
    let first = args[0].as_str();
    if same(first, "-h") || same(first, "--help") || same(first, "help") {
        IncrCommand::Help
    } else if same(first, "once") {
        IncrCommand::Once(1)
    } else if same(first, "sweep") {
        IncrCommand::Sweep(1)
    } else {
        IncrCommand::Once(0)
    }
}

/// The question that a single run answers.
pub open spec fn question(threads: usize, increments: usize, total: usize) -> Seq<char> {
    "How fast can "@ + decimal(threads as nat)
        + " threads each increment the same counter "@ + in_thousands(decimal(increments as nat))
        + " times, for a total of "@ + in_thousands(decimal(total as nat)) + "?"@
}

/// The question that a single run answers.
pub fn once_text(threads: usize, increments: usize, total: usize) -> (text: String)
    ensures
        text@ == question(threads, increments, total),
{
    let mut text = "How fast can ".to_owned();
    text.append(decimal_text(threads as u128).as_str());
    text.append(" threads each increment the same counter ");
    text.append(fmt_num(increments).as_str());
    text.append(" times, for a total of ");
    text.append(fmt_num(total).as_str());
    text.append("?");
    text
}

/// A name with spaces in front, at least `width` characters.
pub open spec fn right_aligned(name: Seq<char>, width: nat) -> Seq<char> {
    if name.len() < width {
        Seq::new((width - name.len()) as nat, |i: int| ' ') + name
    } else {
        name
    }
}

/// The line for one method: `elapsed` is the time as text.
pub fn method_line(method: IncrMethod, elapsed: &str) -> (line: String)
    ensures
        line@ == "For "@ + right_aligned(method.label(), 4) + ": "@ + elapsed@,
{
    let name = method.name();
    let width: usize = chars_of(name).len();
    proof {
        law_names_fit(method);
    }
    let mut padded = String::new();
    let mut i: usize = width;
    while i < 4
        invariant
            width == method.label().len(),
            width <= i <= 4,
            padded@.len() == i - width,
            forall|j: int| 0 <= j < padded@.len() ==> padded@[j] == ' ',
        decreases 4 - i,
    {
        push_char(&mut padded, ' ');
        i = i + 1;
    }
    padded.append(name);
    assert(padded@ =~= right_aligned(method.label(), 4));
    let mut line = "For ".to_owned();
    line.append(padded.as_str());
    line.append(": ");
    line.append(elapsed);
    line
}

/// The longest method name has four characters.
pub proof fn law_names_fit(method: IncrMethod)
    ensures
        method.label().len() <= 4,
        IncrMethod::Casb.label().len() == 4,
{
    reveal_strlit("CAS");
    reveal_strlit("CASB");
    reveal_strlit("FAA");
    reveal_strlit("MAX");
    reveal_strlit("MAXB");
}

/// A case of a sweep: how many threads, how many increments each, and which
/// repeat, from one.
#[derive(Clone, Copy, Debug, PartialEq, Eq, Structural)]
pub struct SweepCase {
    pub threads: usize,
    pub increments: usize,
    pub repeat: usize,
}

/// How many cases a sweep has.
pub open spec fn case_count(cfg: SweepConfig) -> int {
    cfg.thread_counts@.len() * cfg.increments@.len() * cfg.repeats
}

/// The case with a number, from zero: the repeat changes fastest, the thread
/// count slowest.
pub open spec fn case_numbered(cfg: SweepConfig, n: int) -> SweepCase {
    let runs = n / (cfg.repeats as int);
    SweepCase {
        threads: cfg.thread_counts@[runs / (cfg.increments@.len() as int)],
        increments: cfg.increments@[runs % (cfg.increments@.len() as int)],
        repeat: (n % (cfg.repeats as int) + 1) as usize,
    }
}

/// The case with a number, from zero, if the sweep has that many.
pub fn sweep_case(cfg: &SweepConfig, n: usize) -> (case: Option<SweepCase>)
    ensures
        match case {
            Some(case) => n < case_count(*cfg) && case == case_numbered(*cfg, n as int),
            None => n >= case_count(*cfg),
        },
{
    let counts: usize = cfg.thread_counts.len();
    let sizes: usize = cfg.increments.len();
    let repeats: usize = cfg.repeats;
    if repeats == 0 || sizes == 0 {
        assert(case_count(*cfg) == 0) by (nonlinear_arith)
            requires
                case_count(*cfg) == counts * sizes * repeats,
                repeats == 0 || sizes == 0,
        ;
        return None;
    }
    let runs: usize = n / repeats;
    let row: usize = runs / sizes;
    proof {
        lemma_case(n as int, counts as int, sizes as int, repeats as int);
    }
    if row >= counts {
        return None;
    }
    Some(
        SweepCase {
            threads: cfg.thread_counts[row],
            increments: cfg.increments[runs % sizes],
            repeat: n % repeats + 1,
        },
    )
}

/// A number is below the number of cases exactly where its row exists.
proof fn lemma_case(n: int, counts: int, sizes: int, repeats: int)
    requires
        0 <= n,
        0 <= counts,
        0 < sizes,
        0 < repeats,
    ensures
        (n / repeats) / sizes < counts <==> n < counts * sizes * repeats,
        0 <= (n / repeats) % sizes < sizes,
        0 <= n % repeats < repeats,
{
    vstd::arithmetic::div_mod::lemma_fundamental_div_mod(n, repeats);
    vstd::arithmetic::div_mod::lemma_fundamental_div_mod(n / repeats, sizes);
    vstd::arithmetic::div_mod::lemma_mod_bound(n, repeats);
    vstd::arithmetic::div_mod::lemma_mod_bound(n / repeats, sizes);
    let runs = n / repeats;
    let row = runs / sizes;
    let total = counts * sizes;
    assert(row < counts <==> runs < total) by (nonlinear_arith)
        requires
            runs == sizes * row + runs % sizes,
            0 <= runs % sizes < sizes,
            total == counts * sizes,
            0 < sizes,
    ;
    assert(runs < total <==> n < total * repeats) by (nonlinear_arith)
        requires
            n == repeats * runs + n % repeats,
            0 <= n % repeats < repeats,
            0 < repeats,
    ;
}

/// What is said of a case before it runs.
pub open spec fn case_line(case: SweepCase, number: usize, cases: usize, total: usize) -> Seq<
    char,
> {
    "["@ + decimal(number as nat) + "/"@ + decimal(cases as nat) + "] threads="@ + decimal(
        case.threads as nat,
    ) + ", increments_per_thread="@ + in_thousands(decimal(case.increments as nat)) + ", total="@
        + in_thousands(decimal(total as nat))
}

/// What is said of a case before it runs; `number` counts from one.
pub fn case_text(case: SweepCase, number: usize, cases: usize, total: usize) -> (text: String)
    ensures
        text@ == case_line(case, number, cases, total),
{
    let mut text = "[".to_owned();
    text.append(decimal_text(number as u128).as_str());
    text.append("/");
    text.append(decimal_text(cases as u128).as_str());
    text.append("] threads=");
    text.append(decimal_text(case.threads as u128).as_str());
    text.append(", increments_per_thread=");
    text.append(fmt_num(case.increments).as_str());
    text.append(", total=");
    text.append(fmt_num(total).as_str());
    text
}

/// The heading of a sweep's table.
pub fn sweep_heading() -> (line: &'static str)
    ensures
        line@
            == "method,threads,increments_per_thread,total_increments,repeat,elapsed_ns,elapsed_ms"@,
{
    "method,threads,increments_per_thread,total_increments,repeat,elapsed_ns,elapsed_ms"
}

/// One line of a sweep's table.
pub open spec fn measured_line(
    method: IncrMethod,
    case: SweepCase,
    total: usize,
    elapsed_ns: u128,
    elapsed_ms: Seq<char>,
) -> Seq<char> {
    method.label() + ","@ + decimal(case.threads as nat) + ","@ + decimal(case.increments as nat)
        + ","@ + decimal(total as nat) + ","@ + decimal(case.repeat as nat) + ","@ + decimal(
        elapsed_ns as nat,
    ) + ","@ + elapsed_ms
}

/// One line of a sweep's table. `elapsed_ms` is a fraction as text.
pub fn sweep_row(
    method: IncrMethod,
    case: SweepCase,
    total: usize,
    elapsed_ns: u128,
    elapsed_ms: &str,
) -> (line: String)
    ensures
        line@ == measured_line(method, case, total, elapsed_ns, elapsed_ms@),
{
    let mut line = method.name().to_owned();
    line.append(",");
    line.append(decimal_text(case.threads as u128).as_str());
    line.append(",");
    line.append(decimal_text(case.increments as u128).as_str());
    line.append(",");
    line.append(decimal_text(total as u128).as_str());
    line.append(",");
    line.append(decimal_text(case.repeat as u128).as_str());
    line.append(",");
    line.append(decimal_text(elapsed_ns).as_str());
    line.append(",");
    line.append(elapsed_ms);
    line
}

/// Every combination of a thread count, a number of increments and a repeat has
/// its own number, in the order in which they are listed.
pub proof fn law_every_case_has_a_number(cfg: SweepConfig, t: int, i: int, r: int)
    requires
        0 <= t < cfg.thread_counts@.len(),
        0 <= i < cfg.increments@.len(),
        0 <= r < cfg.repeats,
    ensures
        ({
            let n = (t * cfg.increments@.len() + i) * cfg.repeats + r;
            &&& 0 <= n < case_count(cfg)
            &&& case_numbered(cfg, n) == (SweepCase {
                threads: cfg.thread_counts@[t],
                increments: cfg.increments@[i],
                repeat: (r + 1) as usize,
            })
        }),
{
    let columns = cfg.increments@.len() as int;
    let repeats = cfg.repeats as int;
    let rows = cfg.thread_counts@.len() as int;
    let runs = t * columns + i;
    let n = runs * repeats + r;
    assert(0 <= runs < rows * columns) by (nonlinear_arith)
        requires
            0 <= t < rows,
            0 <= i < columns,
            runs == t * columns + i,
    ;
    assert(0 <= n < rows * columns * repeats) by (nonlinear_arith)
        requires
            0 <= runs < rows * columns,
            0 <= r < repeats,
            n == runs * repeats + r,
    ;
    vstd::arithmetic::div_mod::lemma_fundamental_div_mod_converse(n, repeats, runs, r);
    vstd::arithmetic::div_mod::lemma_fundamental_div_mod_converse(runs, columns, t, i);
}

/// The methods are five, each once, and each has a name of its own.
pub proof fn law_the_methods(method: IncrMethod, other: IncrMethod)
    ensures
        methods().len() == 5,
        methods().contains(method),
        method.label() == other.label() ==> method == other,
{
    reveal_strlit("CAS");
    reveal_strlit("CASB");
    reveal_strlit("FAA");
    reveal_strlit("MAX");
    reveal_strlit("MAXB");
    assert("CAS"@[0] == 'C' && "FAA"@[0] == 'F' && "MAX"@[0] == 'M');
    assert("CASB"@.len() == 4 && "MAXB"@.len() == 4 && "CASB"@[0] == 'C' && "MAXB"@[0] == 'M');
    assert("CAS"@.len() == 3 && "FAA"@.len() == 3 && "MAX"@.len() == 3);
    let all = methods();
    assert(all[0] == IncrMethod::Cas && all[1] == IncrMethod::Casb && all[2] == IncrMethod::Faa
        && all[3] == IncrMethod::Max && all[4] == IncrMethod::Maxb);
}

/// A line of the table holds its values under the headings, with commas between
/// them.
pub proof fn law_the_line_of_a_case(
    method: IncrMethod,
    case: SweepCase,
    total: usize,
    elapsed_ns: u128,
    elapsed_ms: Seq<char>,
)
    ensures
        measured_line(method, case, total, elapsed_ns, elapsed_ms) == crate::text::joined(
            seq![
                method.label(),
                decimal(case.threads as nat),
                decimal(case.increments as nat),
                decimal(total as nat),
                decimal(case.repeat as nat),
                decimal(elapsed_ns as nat),
                elapsed_ms,
            ],
            ","@,
        ),
{
    reveal_with_fuel(crate::text::joined, 8);
    let a = method.label();
    let b = decimal(case.threads as nat);
    let c = decimal(case.increments as nat);
    let d = decimal(total as nat);
    let e = decimal(case.repeat as nat);
    let f = decimal(elapsed_ns as nat);
    let all = seq![a, b, c, d, e, f, elapsed_ms];
    assert(all.drop_last() =~= seq![a, b, c, d, e, f]);
    assert(seq![a, b, c, d, e, f].drop_last() =~= seq![a, b, c, d, e]);
    assert(seq![a, b, c, d, e].drop_last() =~= seq![a, b, c, d]);
    assert(seq![a, b, c, d].drop_last() =~= seq![a, b, c]);
    assert(seq![a, b, c].drop_last() =~= seq![a, b]);
    assert(seq![a, b].drop_last() =~= seq![a]);
}

/// A name on the right has only spaces before it, as many as it lacks.
pub proof fn law_right_aligned(name: Seq<char>, width: nat, i: int)
    ensures
        right_aligned(name, width).len() >= width,
        right_aligned(name, width).len() >= name.len(),
        right_aligned(name, width).len() == width || right_aligned(name, width) == name,
        right_aligned(name, width).skip(right_aligned(name, width).len() - name.len()) == name,
        0 <= i < right_aligned(name, width).len() - name.len() ==> right_aligned(name, width)[i]
            == ' ',
{
    assert(right_aligned(name, width).skip(right_aligned(name, width).len() - name.len()) =~= name);
}

} // verus!
