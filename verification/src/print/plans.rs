//! Rendered plans are told apart: what a plan does can be read off how it is rendered, but for
//! the bytes of its constants.
use vstd::prelude::*;

use crate::iter::Address;
use crate::lexer;
use crate::plan;
use crate::plan::{FieldPath, Projection, Residual, ResidualOp, SeekKey, SeekKeyPart};
use crate::print;
use crate::program;
use crate::program::{Level, Program, Source, Step, Test};
use crate::schema::{Names, PredicateId, PredicateTy, Schema};
use crate::shape::apart;
use crate::shape::forms;
use crate::text;
use crate::tuple::Datum;

verus! {

// ---- what is shown ----------------------------------------------------------

/// How a source is opened, as it is shown.
enum Opened {
    Scan,
    Seek(Seq<Seq<char>>),
    Fetch(Seq<char>),
}

/// What a filter asks for, as it is shown.
enum Asked {
    Same(Seq<char>),
    Start,
}

struct SourceShown {
    name: Seq<char>,
    opened: Opened,
    filters: Seq<(Seq<char>, Asked)>,
}

enum StepShown {
    Derive(nat),
    Level(nat, Seq<SourceShown>),
    Absent(Seq<SourceShown>),
}

spec fn opened(program: Program, schema: Schema, source: Source) -> Opened {
    match source {
        Source::Seek { access, .. } => match access.seek_key {
            SeekKey::Prefix(bytes) => if bytes@.len() == 0 {
                Opened::Scan
            } else {
                Opened::Seek(seq!["<const>"@])
            },
            SeekKey::Composite(parts) => Opened::Seek(
                Seq::new(parts@.len(), |i: int| print::part_shown(program, schema, parts@[i])),
            ),
        },
        Source::Fetch { reference, path, .. } => Opened::Fetch(
            print::register_field(program, schema, reference, path),
        ),
    }
}

spec fn asked(program: Program, schema: Schema, op: ResidualOp) -> Asked {
    match op {
        ResidualOp::EqConst(_) => Asked::Same("<const>"@),
        ResidualOp::Prefix(_) => Asked::Start,
        ResidualOp::EqRegisterField { address, path } => Asked::Same(
            print::register_field(program, schema, address, path),
        ),
        ResidualOp::EqRegisterFactId(address) => Asked::Same(address.shown() + "#"@),
    }
}

spec fn name_shown(schema: Schema, predicate: PredicateId) -> Seq<char> {
    match print::declared_name(schema, predicate) {
        Some(name) => name,
        None => "?"@,
    }
}

spec fn shown(program: Program, schema: Schema, source: Source) -> SourceShown {
    SourceShown {
        name: name_shown(schema, source.predicate()),
        opened: opened(program, schema, source),
        filters: Seq::new(
            source.filters()@.len(),
            |i: int|
                (
                    print::field_named(
                        schema,
                        print::key_ty(schema, source.predicate()),
                        source.filters()@[i].path,
                    ),
                    asked(program, schema, source.filters()@[i].op),
                ),
        ),
    }
}

spec fn all_shown(program: Program, schema: Schema, sources: Seq<Source>) -> Seq<SourceShown> {
    Seq::new(sources.len(), |i: int| shown(program, schema, sources[i]))
}

spec fn step_shown(program: Program, schema: Schema, k: int) -> StepShown {
    match program.body@[k] {
        Step::Derive(derived) => StepShown::Derive(derived.bind.0 as nat),
        Step::Level(level) => StepShown::Level(
            program::level_count(program.body@.take(k)),
            all_shown(program, schema, level.sources@),
        ),
        Step::Test(Test::Absent(sources)) => StepShown::Absent(
            all_shown(program, schema, sources@),
        ),
    }
}

spec fn steps_shown(program: Program, schema: Schema) -> Seq<StepShown> {
    Seq::new(program.body@.len(), |k: int| step_shown(program, schema, k))
}

// ---- as text ----------------------------------------------------------------

spec fn between(sign: Seq<char>, k: nat) -> Seq<char> {
    if k > 0 {
        sign
    } else {
        Seq::empty()
    }
}

/// Words from the `k`th on, a sign between them.
spec fn joined(sign: Seq<char>, words: Seq<Seq<char>>, k: nat) -> Seq<char>
    decreases words.len() - k,
{
    if k < words.len() {
        between(sign, k) + (words[k as int] + joined(sign, words, k + 1))
    } else {
        Seq::empty()
    }
}

spec fn opened_text(opened: Opened) -> Seq<char> {
    match opened {
        Opened::Scan => " scan"@,
        Opened::Seek(parts) => " seek["@ + (joined(" "@, parts, 0) + "]"@),
        Opened::Fetch(field) => " fetch["@ + (field + "]"@),
    }
}

spec fn asked_text(asked: Asked) -> Seq<char> {
    match asked {
        Asked::Same(what) => " == "@ + what,
        Asked::Start => " starts with <const>"@,
    }
}

spec fn filters_text(filters: Seq<(Seq<char>, Asked)>, k: nat) -> Seq<char>
    decreases filters.len() - k,
{
    if k < filters.len() {
        "\n       where "@ + (filters[k as int].0 + (asked_text(filters[k as int].1) + filters_text(
            filters,
            k + 1,
        )))
    } else {
        Seq::empty()
    }
}

spec fn source_text(source: SourceShown) -> Seq<char> {
    " "@ + (source.name + (opened_text(source.opened) + filters_text(source.filters, 0)))
}

spec fn sources_text(sources: Seq<SourceShown>, k: nat) -> Seq<char>
    decreases sources.len() - k,
{
    if k < sources.len() {
        between("\n     |"@, k) + (source_text(sources[k as int]) + sources_text(sources, k + 1))
    } else {
        Seq::empty()
    }
}

spec fn alternatives_text(sources: Seq<SourceShown>) -> Seq<char> {
    (if sources.len() == 0 {
        " never"@
    } else {
        sources_text(sources, 0)
    }) + "\n"@
}

spec fn step_text(step: StepShown) -> Seq<char> {
    match step {
        StepShown::Derive(address) => "  r"@ + (text::decimal(address) + " = <computed>\n"@),
        StepShown::Level(level, sources) => "  r"@ + (text::decimal(level) + (" <-"@
            + alternatives_text(sources))),
        StepShown::Absent(sources) => "  absent"@ + alternatives_text(sources),
    }
}

spec fn steps_text(steps: Seq<StepShown>, k: nat) -> Seq<char>
    decreases steps.len() - k,
{
    if k < steps.len() {
        step_text(steps[k as int]) + steps_text(steps, k + 1)
    } else {
        Seq::empty()
    }
}

// ---- a rendering is this text -----------------------------------------------

proof fn lemma_op(program: Program, schema: Schema, op: ResidualOp)
    ensures
        print::op_shown(program, schema, op) == asked_text(asked(program, schema, op)),
{
    reveal_strlit(" == <const>");
    reveal_strlit(" == ");
    reveal_strlit("<const>");
    match op {
        ResidualOp::EqConst(_) => {
            assert(" == <const>"@ =~= " == "@ + "<const>"@);
        },
        ResidualOp::EqRegisterFactId(address) => {
            assert(" == "@ + address.shown() + "#"@ =~= " == "@ + (address.shown() + "#"@));
        },
        _ => {},
    }
}

proof fn lemma_parts(
    program: Program,
    schema: Schema,
    parts: Seq<SeekKeyPart>,
    words: Seq<Seq<char>>,
    out: Seq<char>,
    k: nat,
)
    requires
        words.len() == parts.len(),
        k <= parts.len(),
        forall|i: int|
            0 <= i < parts.len() ==> #[trigger] words[i] == print::part_shown(program, schema, parts[i]),
    ensures
        print::parts_onto(out, program, schema, parts, k) + joined(" "@, words, k) == out + joined(
            " "@,
            words,
            0,
        ),
    decreases k,
{
    if k > 0 {
        let j = (k - 1) as nat;
        lemma_parts(program, schema, parts, words, out, j);
        assert(words[k - 1] == print::part_shown(program, schema, parts[k - 1]));
        let so_far = print::parts_onto(out, program, schema, parts, j);
        assert(print::parts_onto(out, program, schema, parts, k) + joined(" "@, words, k) =~= so_far
            + joined(" "@, words, j));
    }
}

proof fn lemma_opening(program: Program, schema: Schema, source: Source, out: Seq<char>)
    ensures
        print::opening_onto(out, program, schema, source) == out + opened_text(
            opened(program, schema, source),
        ),
{
    let words = opened(program, schema, source);
    match source {
        Source::Seek { access, .. } => match access.seek_key {
            SeekKey::Prefix(bytes) => if bytes@.len() > 0 {
                reveal_strlit(" seek[<const>]");
                reveal_strlit(" seek[");
                reveal_strlit("<const>");
                reveal_strlit("]");
                reveal_with_fuel(joined, 2);
                let one = seq!["<const>"@];
                assert(joined(" "@, one, 0) =~= "<const>"@);
                assert(" seek["@ + ("<const>"@ + "]"@) =~= " seek[<const>]"@);
            },
            SeekKey::Composite(parts) => {
                let texts = Seq::new(
                    parts@.len(),
                    |i: int| print::part_shown(program, schema, parts@[i]),
                );
                lemma_parts(program, schema, parts@, texts, out + " seek["@, parts@.len());
                assert(print::opening_onto(out, program, schema, source) =~= out + opened_text(words));
            },
        },
        Source::Fetch { reference, path, .. } => {
            assert(print::opening_onto(out, program, schema, source) =~= out + opened_text(words));
        },
    }
}

proof fn lemma_filters(
    program: Program,
    schema: Schema,
    source: Source,
    out: Seq<char>,
    k: nat,
)
    requires
        k <= source.filters()@.len(),
    ensures
        ({
            let filters = shown(program, schema, source).filters;
            print::filters_onto(
                out,
                program,
                schema,
                print::key_ty(schema, source.predicate()),
                source.filters()@,
                k,
            ) + filters_text(filters, k) == out + filters_text(filters, 0)
        }),
    decreases k,
{
    if k > 0 {
        let j = (k - 1) as nat;
        lemma_filters(program, schema, source, out, j);
        let filters = shown(program, schema, source).filters;
        let own = source.filters()@;
        let ty = print::key_ty(schema, source.predicate());
        lemma_op(program, schema, own[k - 1].op);
        let so_far = print::filters_onto(out, program, schema, ty, own, j);
        assert(filters[k - 1] == (
            print::field_named(schema, ty, own[k - 1].path),
            asked(program, schema, own[k - 1].op),
        ));
        let (a, b, c) = (filters[k - 1].0, asked_text(filters[k - 1].1), filters_text(filters, k));
        assert(so_far + "\n       where "@ + a + b + c =~= so_far + ("\n       where "@ + (a + (b
            + c))));
    }
}

proof fn lemma_source(program: Program, schema: Schema, source: Source, out: Seq<char>)
    ensures
        print::source_onto(out, program, schema, source) == out + source_text(
            shown(program, schema, source),
        ),
{
    let s = shown(program, schema, source);
    let here = out + " "@ + s.name;
    lemma_opening(program, schema, source, here);
    let next = print::opening_onto(here, program, schema, source);
    lemma_filters(program, schema, source, next, source.filters()@.len());
    let (a, b) = (opened_text(s.opened), filters_text(s.filters, 0));
    let all = print::source_onto(out, program, schema, source);
    assert(filters_text(s.filters, s.filters.len()) =~= Seq::<char>::empty());
    assert(all + Seq::<char>::empty() =~= all);
    assert(out + " "@ + s.name + a + b =~= out + (" "@ + (s.name + (a + b))));
}

proof fn lemma_sources(
    program: Program,
    schema: Schema,
    sources: Seq<Source>,
    out: Seq<char>,
    k: nat,
)
    requires
        k <= sources.len(),
    ensures
        ({
            let all = all_shown(program, schema, sources);
            print::sources_onto(out, program, schema, sources, k) + sources_text(all, k) == out
                + sources_text(all, 0)
        }),
    decreases k,
{
    if k > 0 {
        let j = (k - 1) as nat;
        lemma_sources(program, schema, sources, out, j);
        let all = all_shown(program, schema, sources);
        let so_far = print::sources_onto(out, program, schema, sources, j);
        let here = if k > 1 {
            so_far + "\n     |"@
        } else {
            so_far
        };
        lemma_source(program, schema, sources[k - 1], here);
        let (a, b) = (source_text(all[k - 1]), sources_text(all, k));
        assert(here + a + b =~= so_far + (between("\n     |"@, j) + (a + b)));
    }
}

proof fn lemma_alternatives(program: Program, schema: Schema, sources: Seq<Source>, out: Seq<char>)
    ensures
        print::alternatives_onto(out, program, schema, sources) == out + alternatives_text(
            all_shown(program, schema, sources),
        ),
{
    let all = all_shown(program, schema, sources);
    let start = if sources.len() == 0 {
        out + " never"@
    } else {
        out
    };
    lemma_sources(program, schema, sources, start, sources.len());
    let done = print::sources_onto(start, program, schema, sources, sources.len());
    assert(sources_text(all, all.len()) =~= Seq::<char>::empty());
    assert(done + Seq::<char>::empty() =~= done);
    if sources.len() == 0 {
        assert(out + " never"@ + Seq::<char>::empty() + "\n"@ =~= out + (" never"@ + "\n"@));
    } else {
        let a = sources_text(all, 0);
        assert(out + a + "\n"@ =~= out + (a + "\n"@));
    }
}

proof fn lemma_step(program: Program, schema: Schema, k: int, out: Seq<char>)
    requires
        0 <= k < program.body@.len(),
    ensures
        print::step_onto(
            out,
            program,
            schema,
            program.body@[k],
            program::level_count(program.body@.take(k)),
        ) == out + step_text(step_shown(program, schema, k)),
{
    let level = program::level_count(program.body@.take(k));
    match program.body@[k] {
        Step::Derive(derived) => {
            reveal_strlit("  ");
            reveal_strlit("r");
            reveal_strlit("  r");
            let n = text::decimal(derived.bind.0 as nat);
            assert("  "@ + "r"@ =~= "  r"@);
            assert(out + "  "@ + ("r"@ + n) + " = <computed>\n"@ =~= out + ("  "@ + "r"@ + (n
                + " = <computed>\n"@)));
        },
        Step::Level(found) => {
            let here = out + "  r"@ + text::decimal(level) + " <-"@;
            lemma_alternatives(program, schema, found.sources@, here);
            let a = alternatives_text(all_shown(program, schema, found.sources@));
            assert(here + a =~= out + ("  r"@ + (text::decimal(level) + (" <-"@ + a))));
        },
        Step::Test(Test::Absent(sources)) => {
            lemma_alternatives(program, schema, sources@, out + "  absent"@);
            let a = alternatives_text(all_shown(program, schema, sources@));
            assert(out + "  absent"@ + a =~= out + ("  absent"@ + a));
        },
    }
}

proof fn lemma_steps(program: Program, schema: Schema, k: nat)
    requires
        k <= program.body@.len(),
    ensures
        print::steps_onto(program, schema, k) + steps_text(steps_shown(program, schema), k) == steps_text(
            steps_shown(program, schema),
            0,
        ),
    decreases k,
{
    let all = steps_shown(program, schema);
    if k > 0 {
        let j = (k - 1) as nat;
        lemma_steps(program, schema, j);
        let so_far = print::steps_onto(program, schema, j);
        lemma_step(program, schema, k - 1, so_far);
        assert(all[k - 1] == step_shown(program, schema, k - 1));
        let (a, b) = (step_text(all[k - 1]), steps_text(all, k));
        assert(so_far + a + b =~= so_far + (a + b));
    } else {
        assert(Seq::<char>::empty() + steps_text(all, 0) =~= steps_text(all, 0));
    }
}

/// A plan is its steps, and its head.
proof fn lemma_plan(program: Program, schema: Schema, names: Names)
    ensures
        print::plan_shown(program, schema, names) == print::projection_onto(
            steps_text(steps_shown(program, schema), 0) + "  head "@,
            program,
            schema,
            names,
            program.head.shape(),
        ),
{
    let n = program.body@.len();
    lemma_steps(program, schema, n);
    let all = steps_shown(program, schema);
    let done = print::steps_onto(program, schema, n);
    assert(steps_text(all, n) =~= Seq::<char>::empty());
    assert(done + Seq::<char>::empty() =~= done);
}

// ---- what is shown is told apart --------------------------------------------

/// A character of a part of a rendering: none of those that part them.
pub open spec fn in_part() -> spec_fn(char) -> bool {
    |c: char| c != ' ' && c != ']' && c != '\n'
}

/// A part of a rendering: a word without any of those.
pub open spec fn is_part(word: Seq<char>) -> bool {
    word.len() > 0 && apart::all_of(in_part(), word)
}

spec fn opened_well(opened: Opened) -> bool {
    match opened {
        Opened::Scan => true,
        Opened::Seek(parts) => forall|i: int| 0 <= i < parts.len() ==> is_part(#[trigger] parts[i]),
        Opened::Fetch(field) => is_part(field),
    }
}

spec fn asked_well(asked: Asked) -> bool {
    match asked {
        Asked::Same(what) => is_part(what),
        Asked::Start => true,
    }
}

spec fn shown_well(source: SourceShown) -> bool {
    &&& is_part(source.name)
    &&& opened_well(source.opened)
    &&& forall|i: int|
        0 <= i < source.filters.len() ==> is_part((#[trigger] source.filters[i]).0) && asked_well(
            source.filters[i].1,
        )
}

spec fn all_well(sources: Seq<SourceShown>) -> bool {
    forall|i: int| 0 <= i < sources.len() ==> shown_well(#[trigger] sources[i])
}

spec fn step_well(step: StepShown) -> bool {
    match step {
        StepShown::Derive(_) => true,
        StepShown::Level(_, sources) => all_well(sources),
        StepShown::Absent(sources) => all_well(sources),
    }
}

/// Lists of words are told apart.
proof fn lemma_joined(
    class: spec_fn(char) -> bool,
    sign: Seq<char>,
    a: Seq<Seq<char>>,
    b: Seq<Seq<char>>,
    k: nat,
    s: Seq<char>,
    t: Seq<char>,
)
    requires
        sign.len() > 0,
        !class(sign[0]),
        forall|i: int|
            0 <= i < a.len() ==> (#[trigger] a[i]).len() > 0 && apart::all_of(class, a[i]),
        forall|i: int|
            0 <= i < b.len() ==> (#[trigger] b[i]).len() > 0 && apart::all_of(class, b[i]),
        s.len() > 0 ==> !class(s[0]) && s[0] != sign[0],
        t.len() > 0 ==> !class(t[0]) && t[0] != sign[0],
        k <= a.len(),
        k <= b.len(),
        joined(sign, a, k) + s == joined(sign, b, k) + t,
    ensures
        a.len() == b.len(),
        forall|i: int| k <= i < a.len() ==> a[i] == #[trigger] b[i],
        s == t,
    decreases a.len() - k,
{
    let (x, y) = (joined(sign, a, k) + s, joined(sign, b, k) + t);
    lemma_joined_start(class, sign, a, k, s);
    lemma_joined_start(class, sign, b, k, t);
    if k < a.len() && k < b.len() {
        let (more, rest) = (joined(sign, a, k + 1) + s, joined(sign, b, k + 1) + t);
        let (p, q) = (a[k as int], b[k as int]);
        assert(x =~= between(sign, k) + (p + more));
        assert(y =~= between(sign, k) + (q + rest));
        apart::lemma_strip(between(sign, k), p + more, q + rest);
        lemma_joined_start(class, sign, a, k + 1, s);
        lemma_joined_start(class, sign, b, k + 1, t);
        apart::lemma_word(class, p, q, more, rest);
        lemma_joined(class, sign, a, b, k + 1, s, t);
    }
}

proof fn lemma_joined_start(
    class: spec_fn(char) -> bool,
    sign: Seq<char>,
    a: Seq<Seq<char>>,
    k: nat,
    s: Seq<char>,
)
    requires
        sign.len() > 0,
        !class(sign[0]),
        forall|i: int|
            0 <= i < a.len() ==> (#[trigger] a[i]).len() > 0 && apart::all_of(class, a[i]),
        s.len() > 0 ==> !class(s[0]) && s[0] != sign[0],
    ensures
        ({
            let x = joined(sign, a, k) + s;
            &&& k >= a.len() ==> x == s
            &&& k < a.len() ==> x.len() > 0 && (if k > 0 {
                x[0] == sign[0]
            } else {
                class(x[0])
            })
        }),
{
    let x = joined(sign, a, k) + s;
    if k < a.len() {
        assert(a[k as int].len() > 0);
        assert(class(a[k as int][0]));
        if k > 0 {
            assert(x[0] == sign[0]);
        } else {
            assert(x[0] == a[k as int][0]);
        }
    } else {
        assert(x =~= s);
    }
}

/// What may stand behind how a source is opened.
spec fn on_a_line(rest: Seq<char>) -> bool {
    rest.len() > 0 && rest[0] == '\n'
}

proof fn lemma_opened(a: Opened, b: Opened, s: Seq<char>, t: Seq<char>)
    requires
        opened_well(a),
        opened_well(b),
        on_a_line(s),
        on_a_line(t),
        opened_text(a) + s == opened_text(b) + t,
    ensures
        a == b,
        s == t,
{
    reveal_strlit(" scan");
    reveal_strlit(" seek[");
    reveal_strlit(" fetch[");
    reveal_strlit("]");
    reveal_strlit(" ");
    let (x, y) = (opened_text(a) + s, opened_text(b) + t);
    assert(x[1] == (if a is Fetch {
        'f'
    } else {
        's'
    }));
    assert(y[1] == (if b is Fetch {
        'f'
    } else {
        's'
    }));
    assert(x[2] == (if a is Scan {
        'c'
    } else {
        'e'
    }));
    assert(y[2] == (if b is Scan {
        'c'
    } else {
        'e'
    }));
    match (a, b) {
        (Opened::Scan, Opened::Scan) => apart::lemma_strip(" scan"@, s, t),
        (Opened::Seek(p), Opened::Seek(q)) => {
            let (m, n) = (joined(" "@, p, 0), joined(" "@, q, 0));
            assert(x =~= " seek["@ + (m + ("]"@ + s)));
            assert(y =~= " seek["@ + (n + ("]"@ + t)));
            apart::lemma_strip(" seek["@, m + ("]"@ + s), n + ("]"@ + t));
            lemma_joined(in_part(), " "@, p, q, 0, "]"@ + s, "]"@ + t);
            assert(p =~= q);
            apart::lemma_strip("]"@, s, t);
        },
        (Opened::Fetch(p), Opened::Fetch(q)) => {
            assert(x =~= " fetch["@ + (p + ("]"@ + s)));
            assert(y =~= " fetch["@ + (q + ("]"@ + t)));
            apart::lemma_strip(" fetch["@, p + ("]"@ + s), q + ("]"@ + t));
            apart::lemma_word(in_part(), p, q, "]"@ + s, "]"@ + t);
            apart::lemma_strip("]"@, s, t);
        },
        _ => {},
    }
}

proof fn lemma_asked(a: Asked, b: Asked, s: Seq<char>, t: Seq<char>)
    requires
        asked_well(a),
        asked_well(b),
        on_a_line(s),
        on_a_line(t),
        asked_text(a) + s == asked_text(b) + t,
    ensures
        a == b,
        s == t,
{
    reveal_strlit(" == ");
    reveal_strlit(" starts with <const>");
    let (x, y) = (asked_text(a) + s, asked_text(b) + t);
    assert(x[1] == (if a is Same {
        '='
    } else {
        's'
    }));
    assert(y[1] == (if b is Same {
        '='
    } else {
        's'
    }));
    match (a, b) {
        (Asked::Same(p), Asked::Same(q)) => {
            assert(x =~= " == "@ + (p + s));
            assert(y =~= " == "@ + (q + t));
            apart::lemma_strip(" == "@, p + s, q + t);
            apart::lemma_word(in_part(), p, q, s, t);
        },
        (Asked::Start, Asked::Start) => apart::lemma_strip(" starts with <const>"@, s, t),
        _ => {},
    }
}

/// What may stand behind the filters of a source.
spec fn after_filters(rest: Seq<char>) -> bool {
    &&& rest.len() > 3
    &&& rest[0] == '\n'
    &&& rest[3] != ' ' || (rest.len() > 6 && rest[6] == '|')
}

proof fn lemma_filters_start(filters: Seq<(Seq<char>, Asked)>, k: nat, s: Seq<char>)
    requires
        after_filters(s),
    ensures
        ({
            let x = filters_text(filters, k) + s;
            &&& on_a_line(x)
            &&& k < filters.len() ==> !after_filters(x)
            &&& k >= filters.len() ==> x == s
        }),
{
    reveal_strlit("\n       where ");
    let x = filters_text(filters, k) + s;
    if k < filters.len() {
        assert(x[0] == '\n' && x[3] == ' ' && x[6] == ' ');
    } else {
        assert(x =~= s);
    }
}

proof fn lemma_filters_apart(
    a: Seq<(Seq<char>, Asked)>,
    b: Seq<(Seq<char>, Asked)>,
    k: nat,
    s: Seq<char>,
    t: Seq<char>,
)
    requires
        forall|i: int|
            0 <= i < a.len() ==> is_part((#[trigger] a[i]).0) && asked_well(a[i].1),
        forall|i: int|
            0 <= i < b.len() ==> is_part((#[trigger] b[i]).0) && asked_well(b[i].1),
        after_filters(s),
        after_filters(t),
        k <= a.len(),
        k <= b.len(),
        filters_text(a, k) + s == filters_text(b, k) + t,
    ensures
        a.len() == b.len(),
        forall|i: int| k <= i < a.len() ==> a[i] == #[trigger] b[i],
        s == t,
    decreases a.len() - k,
{
    lemma_filters_start(a, k, s);
    lemma_filters_start(b, k, t);
    if k < a.len() && k < b.len() {
        reveal_strlit(" == ");
        reveal_strlit(" starts with <const>");
        let (p, q) = (a[k as int], b[k as int]);
        let (more, rest) = (filters_text(a, k + 1) + s, filters_text(b, k + 1) + t);
        let (m, n) = (asked_text(p.1) + more, asked_text(q.1) + rest);
        let line = "\n       where "@;
        assert(filters_text(a, k) + s =~= line + (p.0 + m));
        assert(filters_text(b, k) + t =~= line + (q.0 + n));
        apart::lemma_strip(line, p.0 + m, q.0 + n);
        assert(m[0] == ' ' && n[0] == ' ');
        apart::lemma_word(in_part(), p.0, q.0, m, n);
        lemma_filters_start(a, k + 1, s);
        lemma_filters_start(b, k + 1, t);
        lemma_asked(p.1, q.1, more, rest);
        lemma_filters_apart(a, b, k + 1, s, t);
    }
}

proof fn lemma_source_apart(a: SourceShown, b: SourceShown, s: Seq<char>, t: Seq<char>)
    requires
        shown_well(a),
        shown_well(b),
        after_filters(s),
        after_filters(t),
        source_text(a) + s == source_text(b) + t,
    ensures
        a == b,
        s == t,
{
    reveal_strlit(" ");
    reveal_strlit(" scan");
    reveal_strlit(" seek[");
    reveal_strlit(" fetch[");
    let (more, rest) = (filters_text(a.filters, 0) + s, filters_text(b.filters, 0) + t);
    let (m, n) = (opened_text(a.opened) + more, opened_text(b.opened) + rest);
    assert(source_text(a) + s =~= " "@ + (a.name + m));
    assert(source_text(b) + t =~= " "@ + (b.name + n));
    apart::lemma_strip(" "@, a.name + m, b.name + n);
    assert(m[0] == ' ' && n[0] == ' ');
    apart::lemma_word(in_part(), a.name, b.name, m, n);
    lemma_filters_start(a.filters, 0, s);
    lemma_filters_start(b.filters, 0, t);
    lemma_opened(a.opened, b.opened, more, rest);
    lemma_filters_apart(a.filters, b.filters, 0, s, t);
    assert(a.filters =~= b.filters);
}

/// What may stand behind the sources of a step: the line of the next.
spec fn next_line(rest: Seq<char>) -> bool {
    &&& rest.len() > 3
    &&& rest[0] == '\n'
    &&& rest[3] != ' '
}

proof fn lemma_sources_start(sources: Seq<SourceShown>, k: nat, s: Seq<char>)
    requires
        next_line(s),
        k > 0,
    ensures
        ({
            let x = sources_text(sources, k) + s;
            &&& after_filters(x)
            &&& k < sources.len() ==> !next_line(x)
            &&& k >= sources.len() ==> x == s
        }),
{
    reveal_strlit("\n     |");
    let x = sources_text(sources, k) + s;
    if k < sources.len() {
        assert(x[0] == '\n' && x[3] == ' ' && x[6] == '|');
    } else {
        assert(x =~= s);
    }
}

proof fn lemma_sources_apart(
    a: Seq<SourceShown>,
    b: Seq<SourceShown>,
    k: nat,
    s: Seq<char>,
    t: Seq<char>,
)
    requires
        all_well(a),
        all_well(b),
        next_line(s),
        next_line(t),
        k <= a.len(),
        k <= b.len(),
        a.len() > 0,
        b.len() > 0,
        sources_text(a, k) + s == sources_text(b, k) + t,
    ensures
        a.len() == b.len(),
        forall|i: int| k <= i < a.len() ==> a[i] == #[trigger] b[i],
        s == t,
    decreases a.len() - k,
{
    if k > 0 {
        lemma_sources_start(a, k, s);
        lemma_sources_start(b, k, t);
    }
    if k < a.len() && k < b.len() {
        let (more, rest) = (sources_text(a, k + 1) + s, sources_text(b, k + 1) + t);
        let (m, n) = (source_text(a[k as int]), source_text(b[k as int]));
        let line = between("\n     |"@, k);
        assert(sources_text(a, k) + s =~= line + (m + more));
        assert(sources_text(b, k) + t =~= line + (n + rest));
        apart::lemma_strip(line, m + more, n + rest);
        lemma_sources_start(a, k + 1, s);
        lemma_sources_start(b, k + 1, t);
        lemma_source_apart(a[k as int], b[k as int], more, rest);
        lemma_sources_apart(a, b, k + 1, s, t);
    }
}

/// A step that ranges over nothing is not one that ranges over something.
proof fn lemma_never(a: Seq<SourceShown>, s: Seq<char>, t: Seq<char>)
    requires
        all_well(a),
        a.len() > 0,
    ensures
        sources_text(a, 0) + s != " never"@ + ("\n"@ + t),
{
    reveal_strlit(" never");
    reveal_strlit("\n");
    reveal_strlit(" ");
    reveal_strlit(" scan");
    reveal_strlit(" seek[");
    reveal_strlit(" fetch[");
    let x = sources_text(a, 0) + s;
    let y = " never"@ + ("\n"@ + t);
    if x == y {
        let first = a[0];
        assert(shown_well(first));
        let more = opened_text(first.opened) + filters_text(first.filters, 0) + sources_text(a, 1)
            + s;
        assert(x =~= " "@ + (first.name + more));
        let never = y.subrange(1, 6);
        assert(y =~= " "@ + (never + ("\n"@ + t)));
        apart::lemma_strip(" "@, first.name + more, never + ("\n"@ + t));
        assert(more[0] == ' ');
        assert(apart::all_of(in_part(), never)) by {
            assert forall|i: int| 0 <= i < never.len() implies in_part()(#[trigger] never[i]) by {
                assert(never[i] == " never"@[i + 1]);
            }
        }
        apart::lemma_word(in_part(), first.name, never, more, "\n"@ + t);
        assert(("\n"@ + t)[0] == '\n');
    }
}

/// What a line begins with: two spaces, and something else.
spec fn a_line(rest: Seq<char>) -> bool {
    rest.len() > 2 && rest[2] != ' '
}

proof fn lemma_alternatives_apart(
    a: Seq<SourceShown>,
    b: Seq<SourceShown>,
    s: Seq<char>,
    t: Seq<char>,
)
    requires
        all_well(a),
        all_well(b),
        a_line(s),
        a_line(t),
        alternatives_text(a) + s == alternatives_text(b) + t,
    ensures
        a == b,
        s == t,
{
    reveal_strlit("\n");
    let (x, y) = (alternatives_text(a) + s, alternatives_text(b) + t);
    let (p, q) = ("\n"@ + s, "\n"@ + t);
    assert(p[3] == s[2] && q[3] == t[2]);
    if a.len() == 0 {
        assert(x =~= " never"@ + p);
    } else {
        assert(x =~= sources_text(a, 0) + p);
    }
    if b.len() == 0 {
        assert(y =~= " never"@ + q);
    } else {
        assert(y =~= sources_text(b, 0) + q);
    }
    if a.len() == 0 && b.len() == 0 {
        apart::lemma_strip(" never"@, p, q);
        assert(a =~= b);
    } else if a.len() == 0 {
        lemma_never(b, q, s);
    } else if b.len() == 0 {
        lemma_never(a, p, t);
    } else {
        lemma_sources_apart(a, b, 0, p, q);
        assert(a =~= b);
    }
    apart::lemma_strip("\n"@, s, t);
}

proof fn lemma_step_start(step: StepShown, s: Seq<char>)
    ensures
        ({
            let x = step_text(step) + s;
            &&& a_line(x)
            &&& x[2] == (if step is Absent {
                'a'
            } else {
                'r'
            })
        }),
{
    reveal_strlit("  r");
    reveal_strlit("  absent");
}

proof fn lemma_step_apart(a: StepShown, b: StepShown, s: Seq<char>, t: Seq<char>)
    requires
        step_well(a),
        step_well(b),
        a_line(s),
        a_line(t),
        step_text(a) + s == step_text(b) + t,
    ensures
        a == b,
        s == t,
{
    reveal_strlit(" = <computed>\n");
    reveal_strlit(" <-");
    lemma_step_start(a, s);
    lemma_step_start(b, t);
    if a is Absent {
        let (p, q) = (alternatives_text(a->Absent_0), alternatives_text(b->Absent_0));
        assert(step_text(a) + s =~= "  absent"@ + (p + s));
        assert(step_text(b) + t =~= "  absent"@ + (q + t));
        apart::lemma_strip("  absent"@, p + s, q + t);
        lemma_alternatives_apart(a->Absent_0, b->Absent_0, s, t);
    } else {
        let parts = |step: StepShown, s: Seq<char>|
            match step {
                StepShown::Derive(n) => (n, " = <computed>\n"@ + s),
                StepShown::Level(n, sources) => (n, " <-"@ + (alternatives_text(sources) + s)),
                StepShown::Absent(_) => (0nat, s),
            };
        let (m, p) = parts(a, s);
        let (n, q) = parts(b, t);
        assert(step_text(a) + s =~= "  r"@ + (text::decimal(m) + p));
        assert(step_text(b) + t =~= "  r"@ + (text::decimal(n) + q));
        apart::lemma_strip("  r"@, text::decimal(m) + p, text::decimal(n) + q);
        assert(p[0] == ' ' && q[0] == ' ');
        apart::lemma_decimals(m, n, p, q);
        assert(p[1] == (if a is Derive {
            '='
        } else {
            '<'
        }));
        assert(q[1] == (if b is Derive {
            '='
        } else {
            '<'
        }));
        if a is Derive {
            apart::lemma_strip(" = <computed>\n"@, s, t);
        } else {
            let (c, d) = (a->Level_1, b->Level_1);
            apart::lemma_strip(" <-"@, alternatives_text(c) + s, alternatives_text(d) + t);
            lemma_alternatives_apart(c, d, s, t);
        }
    }
}

/// The line of the head.
spec fn head_line(head: Seq<char>) -> Seq<char> {
    "  head "@ + head
}

proof fn lemma_steps_start(steps: Seq<StepShown>, k: nat, head: Seq<char>)
    ensures
        ({
            let x = steps_text(steps, k) + head_line(head);
            &&& a_line(x)
            &&& k < steps.len() ==> x[2] != 'h'
            &&& k >= steps.len() ==> x == head_line(head) && x[2] == 'h'
        }),
{
    reveal_strlit("  head ");
    let x = steps_text(steps, k) + head_line(head);
    if k < steps.len() {
        let rest = steps_text(steps, k + 1) + head_line(head);
        lemma_step_start(steps[k as int], rest);
        assert(x =~= step_text(steps[k as int]) + rest);
    } else {
        assert(x =~= head_line(head));
    }
}

proof fn lemma_steps_apart(
    a: Seq<StepShown>,
    b: Seq<StepShown>,
    k: nat,
    p: Seq<char>,
    q: Seq<char>,
)
    requires
        forall|i: int| 0 <= i < a.len() ==> step_well(#[trigger] a[i]),
        forall|i: int| 0 <= i < b.len() ==> step_well(#[trigger] b[i]),
        k <= a.len(),
        k <= b.len(),
        steps_text(a, k) + head_line(p) == steps_text(b, k) + head_line(q),
    ensures
        a.len() == b.len(),
        forall|i: int| k <= i < a.len() ==> a[i] == #[trigger] b[i],
        p == q,
    decreases a.len() - k,
{
    lemma_steps_start(a, k, p);
    lemma_steps_start(b, k, q);
    if k < a.len() {
        let (more, rest) = (
            steps_text(a, k + 1) + head_line(p),
            steps_text(b, k + 1) + head_line(q),
        );
        assert(steps_text(a, k) + head_line(p) =~= step_text(a[k as int]) + more);
        assert(steps_text(b, k) + head_line(q) =~= step_text(b[k as int]) + rest);
        lemma_steps_start(a, k + 1, p);
        lemma_steps_start(b, k + 1, q);
        lemma_step_apart(a[k as int], b[k as int], more, rest);
        lemma_steps_apart(a, b, k + 1, p, q);
    } else {
        apart::lemma_strip("  head "@, p, q);
    }
}

// ---- fields by name ---------------------------------------------------------

/// A character of a field's name: none of those that part names.
pub open spec fn in_name() -> spec_fn(char) -> bool {
    |c: char|
        c != ' ' && c != ']' && c != '\n' && c != ',' && c != '}' && c != '.' && c != '#' && c != '='
}

/// A name a field can have. The value side of a fact is read by a name of its own.
pub open spec fn is_name(name: Seq<char>) -> bool {
    name.len() > 0 && apart::all_of(in_name(), name) && name != "value"@
}

/// From position `k` on, a path leads through records whose fields have names, each its own.
pub open spec fn leads(schema: Schema, ty: PredicateTy, path: FieldPath, k: nat) -> bool
    decreases print::positions(path).len() - k,
{
    k >= print::positions(path).len() || match ty {
        PredicateTy::Record(fields) => {
            let at = print::positions(path)[k as int];
            &&& at < fields@.len()
            &&& forall|i: int|
                0 <= i < fields@.len() ==> is_name(
                    print::schema_name(schema.names(), (#[trigger] fields@[i]).0.0),
                )
            &&& forall|i: int, j: int|
                0 <= i < j < fields@.len() ==> print::schema_name(
                    schema.names(),
                    (#[trigger] fields@[i]).0.0,
                ) != print::schema_name(schema.names(), (#[trigger] fields@[j]).0.0)
            &&& leads(schema, fields@[at as int].1, path, k + 1)
        },
        _ => false,
    }
}

/// A path is one into rows of a type. Where the type is not known, or is no record, any is.
pub open spec fn path_fits(schema: Schema, ty: Option<PredicateTy>, path: FieldPath) -> bool {
    ty matches Some(found) ==> found is Record ==> leads(schema, found, path, 0)
}

/// The names along a path.
spec fn names_along(schema: Schema, ty: PredicateTy, path: FieldPath, k: nat) -> Seq<Seq<char>>
    decreases print::positions(path).len() - k,
{
    if k >= print::positions(path).len() {
        Seq::empty()
    } else {
        match ty {
            PredicateTy::Record(fields) => {
                let at = print::positions(path)[k as int] as int;
                seq![print::schema_name(schema.names(), fields@[at].0.0)] + names_along(
                    schema,
                    fields@[at].1,
                    path,
                    k + 1,
                )
            },
            _ => Seq::empty(),
        }
    }
}

proof fn lemma_along(schema: Schema, ty: PredicateTy, path: FieldPath, k: nat)
    requires
        leads(schema, ty, path, k),
        k <= print::positions(path).len(),
    ensures
        names_along(schema, ty, path, k).len() == print::positions(path).len() - k,
        forall|i: int|
            0 <= i < names_along(schema, ty, path, k).len() ==> is_name(
                #[trigger] names_along(schema, ty, path, k)[i],
            ),
    decreases print::positions(path).len() - k,
{
    if k < print::positions(path).len() {
        if let PredicateTy::Record(fields) = ty {
            let at = print::positions(path)[k as int] as int;
            lemma_along(schema, fields@[at].1, path, k + 1);
            let all = names_along(schema, ty, path, k);
            let rest = names_along(schema, fields@[at].1, path, k + 1);
            let name = print::schema_name(schema.names(), fields@[at].0.0);
            assert(all == seq![name] + rest);
            assert(is_name(name)) by {
                assert(fields@[at].0.0 == fields@[at].0.0);
            }
            assert forall|i: int| 0 <= i < all.len() implies is_name(#[trigger] all[i]) by {
                if i > 0 {
                    assert(all[i] == rest[i - 1]);
                } else {
                    assert(all[0] == name);
                }
            }
        }
    }
}

/// A path is named by the names along it.
proof fn lemma_named(
    schema: Schema,
    ty: PredicateTy,
    path: FieldPath,
    k: nat,
    all: Seq<Seq<char>>,
    so_far: Seq<char>,
)
    requires
        leads(schema, ty, path, k),
        k <= print::positions(path).len(),
        all.len() == print::positions(path).len(),
        all.skip(k as int) == names_along(schema, ty, path, k),
        k == 0 ==> so_far.len() == 0,
    ensures
        print::named_from(schema, ty, path, k, so_far) == so_far + joined("."@, all, k),
    decreases print::positions(path).len() - k,
{
    if k >= print::positions(path).len() {
        assert(so_far + Seq::<char>::empty() =~= so_far);
    } else if let PredicateTy::Record(fields) = ty {
        let at = print::positions(path)[k as int] as int;
        let name = print::schema_name(schema.names(), fields@[at].0.0);
        let rest = names_along(schema, fields@[at].1, path, k + 1);
        assert(all.skip(k as int) == seq![name] + rest);
        assert(all[k as int] == all.skip(k as int)[0]);
        assert(all.skip(k as int + 1) =~= all.skip(k as int).skip(1));
        assert((seq![name] + rest).skip(1) =~= rest);
        let next = if k == 0 {
            name
        } else {
            so_far + "."@ + name
        };
        lemma_named(schema, fields@[at].1, path, k + 1, all, next);
        let end = joined("."@, all, k + 1);
        if k == 0 {
            assert(so_far =~= Seq::<char>::empty());
            assert(name + end =~= so_far + (between("."@, 0) + (name + end)));
        } else {
            assert(so_far + "."@ + name + end =~= so_far + ("."@ + (name + end)));
        }
    }
}

/// The positions of a path as text.
spec fn digits_of(path: FieldPath) -> Seq<Seq<char>> {
    Seq::new(
        print::positions(path).len(),
        |i: int| text::decimal(print::positions(path)[i] as nat),
    )
}

proof fn lemma_positions(path: FieldPath, k: nat)
    requires
        k <= path.inner().len(),
    ensures
        text::decimal(path.top() as nat) + plan::steps_shown(path.inner(), k) + joined(
            "."@,
            digits_of(path),
            k + 1,
        ) == joined("."@, digits_of(path), 0),
    decreases k,
{
    let all = digits_of(path);
    let first = text::decimal(path.top() as nat);
    if k > 0 {
        let j = (k - 1) as nat;
        lemma_positions(path, j);
        assert(print::positions(path)[k as int] == path.inner()[k - 1]);
        let (so_far, end) = (plan::steps_shown(path.inner(), j), joined("."@, all, k + 1));
        let here = text::decimal(path.inner()[k - 1] as nat);
        assert(joined("."@, all, k) == "."@ + (here + end));
        assert(first + (so_far + "."@ + here) + end =~= first + so_far + ("."@ + (here + end)));
    } else {
        let end = joined("."@, all, 1);
        assert(print::positions(path)[0] == path.top());
        assert(first + Seq::<char>::empty() + end =~= between("."@, 0) + (first + end));
    }
}

/// The words a field is named by.
spec fn words(schema: Schema, ty: Option<PredicateTy>, path: FieldPath) -> Seq<Seq<char>> {
    match ty {
        Some(found) => if found is Record {
            names_along(schema, found, path, 0)
        } else {
            digits_of(path)
        },
        None => digits_of(path),
    }
}

proof fn lemma_words(schema: Schema, ty: Option<PredicateTy>, path: FieldPath)
    requires
        path_fits(schema, ty, path),
    ensures
        print::field_named(schema, ty, path) == joined("."@, words(schema, ty, path), 0),
        words(schema, ty, path).len() == print::positions(path).len(),
        forall|i: int|
            0 <= i < words(schema, ty, path).len() ==> (#[trigger] words(
                schema,
                ty,
                path,
            )[i]).len() > 0 && apart::all_of(in_name(), words(schema, ty, path)[i]),
        words(schema, ty, path)[0] != "value"@,
{
    let all = words(schema, ty, path);
    let n = path.inner().len();
    lemma_positions(path, n);
    let shown = path.shown();
    assert(joined("."@, digits_of(path), n + 1) =~= Seq::<char>::empty());
    assert(shown + Seq::<char>::empty() =~= shown);
    assert(shown == joined("."@, digits_of(path), 0));
    let named = ty matches Some(found) && found is Record;
    if named {
        let found = ty->0;
        lemma_along(schema, found, path, 0);
        assert(all.skip(0) =~= all);
        lemma_named(schema, found, path, 0, all, Seq::empty());
        assert(Seq::<char>::empty() + joined("."@, all, 0) =~= joined("."@, all, 0));
        assert(is_name(all[0]));
        assert forall|i: int| 0 <= i < all.len() implies (#[trigger] all[i]).len() > 0
            && apart::all_of(in_name(), all[i]) by {
            assert(is_name(all[i]));
        }
    } else {
        reveal_strlit("value");
        assert forall|i: int| 0 <= i < all.len() implies (#[trigger] all[i]).len() > 0
            && apart::all_of(in_name(), all[i]) by {
            lexer::lemma_decimal(print::positions(path)[i] as nat);
        }
        lexer::lemma_decimal(print::positions(path)[0] as nat);
        assert('0' <= all[0][0] <= '9');
    }
}

/// Two paths into rows of one type that are named alike are one path.
pub open spec fn same_path(p: FieldPath, q: FieldPath) -> bool {
    p.top() == q.top() && p.inner() == q.inner()
}

proof fn lemma_along_apart(schema: Schema, ty: PredicateTy, p: FieldPath, q: FieldPath, k: nat)
    requires
        leads(schema, ty, p, k),
        leads(schema, ty, q, k),
        k <= print::positions(p).len(),
        print::positions(p).len() == print::positions(q).len(),
        names_along(schema, ty, p, k) == names_along(schema, ty, q, k),
    ensures
        forall|i: int|
            k <= i < print::positions(p).len() ==> print::positions(p)[i]
                == #[trigger] print::positions(q)[i],
    decreases print::positions(p).len() - k,
{
    if k < print::positions(p).len() {
        if let PredicateTy::Record(fields) = ty {
            let (x, y) = (
                print::positions(p)[k as int] as int,
                print::positions(q)[k as int] as int,
            );
            let (a, b) = (names_along(schema, ty, p, k), names_along(schema, ty, q, k));
            let (m, n) = (
                names_along(schema, fields@[x].1, p, k + 1),
                names_along(schema, fields@[y].1, q, k + 1),
            );
            assert(a[0] == print::schema_name(schema.names(), fields@[x].0.0));
            assert(b[0] == print::schema_name(schema.names(), fields@[y].0.0));
            if x < y {
                assert(fields@[x].0.0 == fields@[x].0.0 && fields@[y].0.0 == fields@[y].0.0);
            } else if y < x {
                assert(fields@[y].0.0 == fields@[y].0.0 && fields@[x].0.0 == fields@[x].0.0);
            }
            assert(x == y);
            assert(a.skip(1) =~= m);
            assert(b.skip(1) =~= n);
            lemma_along_apart(schema, fields@[x].1, p, q, k + 1);
        }
    }
}

proof fn lemma_paths_apart(schema: Schema, ty: Option<PredicateTy>, p: FieldPath, q: FieldPath)
    requires
        path_fits(schema, ty, p),
        path_fits(schema, ty, q),
        words(schema, ty, p) == words(schema, ty, q),
    ensures
        same_path(p, q),
{
    lemma_words(schema, ty, p);
    lemma_words(schema, ty, q);
    let (x, y) = (print::positions(p), print::positions(q));
    let named = ty matches Some(found) && found is Record;
    if named {
        lemma_along_apart(schema, ty->0, p, q, 0);
    } else {
        assert forall|i: int| 0 <= i < x.len() implies x[i] == y[i] by {
            assert(digits_of(p)[i] == digits_of(q)[i]);
            lexer::lemma_decimal(x[i] as nat);
            lexer::lemma_decimal(y[i] as nat);
        }
    }
    assert(x =~= y);
    assert(x[0] == p.top() && y[0] == q.top());
    assert(x.skip(1) =~= p.inner());
    assert(y.skip(1) =~= q.inner());
}

/// A field's name is a part of a rendering.
proof fn lemma_field_part(schema: Schema, ty: Option<PredicateTy>, path: FieldPath)
    requires
        path_fits(schema, ty, path),
    ensures
        is_part(print::field_named(schema, ty, path)),
{
    lemma_words(schema, ty, path);
    lemma_joined_part(words(schema, ty, path), 0);
}

proof fn lemma_joined_part(all: Seq<Seq<char>>, k: nat)
    requires
        forall|i: int|
            0 <= i < all.len() ==> (#[trigger] all[i]).len() > 0 && apart::all_of(
                in_name(),
                all[i],
            ),
    ensures
        apart::all_of(in_part(), joined("."@, all, k)),
        k < all.len() ==> joined("."@, all, k).len() > 0,
    decreases all.len() - k,
{
    reveal_strlit(".");
    if k < all.len() {
        lemma_joined_part(all, k + 1);
        let (word, rest) = (all[k as int], joined("."@, all, k + 1));
        assert(word.len() > 0 && apart::all_of(in_name(), word));
        let sign = between("."@, k);
        let text = sign + (word + rest);
        assert forall|i: int| 0 <= i < text.len() implies in_part()(#[trigger] text[i]) by {
            if i < sign.len() {
                assert(text[i] == '.');
            } else if i < sign.len() + word.len() {
                assert(text[i] == word[i - sign.len()]);
            } else {
                assert(text[i] == rest[i - sign.len() - word.len()]);
            }
        }
    }
}

// ---- scans and seeks --------------------------------------------------------

/// Whether a source is a scan of the whole predicate: its prefix is empty.
pub open spec fn is_scan(source: Source) -> bool {
    source matches Source::Seek { access, .. } && (access.seek_key matches SeekKey::Prefix(bytes)
        && bytes@.len() == 0)
}

/// Whether a source is a seek by a constant alone.
pub open spec fn is_constant_seek(source: Source) -> bool {
    source matches Source::Seek { access, .. } && (access.seek_key matches SeekKey::Prefix(bytes)
        && bytes@.len() > 0)
}

/// A source is shown as a scan exactly where it is one, and as a seek by a constant where it is
/// that; so no two sources of which one is a scan, or one a fetch, are shown alike.
pub proof fn law_a_scan_is_shown_as_one(
    out: Seq<char>,
    program: Program,
    schema: Schema,
    source: Source,
    other: Source,
)
    ensures
        print::opening_onto(out, program, schema, source) == out + " scan"@ <==> is_scan(source),
        is_constant_seek(source) ==> print::opening_onto(out, program, schema, source) == out
            + " seek[<const>]"@,
        print::opening_onto(out, program, schema, source) == print::opening_onto(
            out,
            program,
            schema,
            other,
        ) ==> is_scan(source) == is_scan(other) && (source is Fetch) == (other is Fetch),
{
    reveal_strlit(" scan");
    reveal_strlit(" seek[");
    reveal_strlit(" fetch[");
    reveal_strlit(" seek[<const>]");
    lemma_opening(program, schema, source, out);
    lemma_opening(program, schema, other, out);
    let (a, b) = (opened(program, schema, source), opened(program, schema, other));
    let (x, y) = (opened_text(a), opened_text(b));
    assert(x[1] == (if a is Fetch {
        'f'
    } else {
        's'
    }) && x[2] == (if a is Scan {
        'c'
    } else {
        'e'
    }));
    assert(y[1] == (if b is Fetch {
        'f'
    } else {
        's'
    }) && y[2] == (if b is Scan {
        'c'
    } else {
        'e'
    }));
    if out + x == out + y {
        apart::lemma_strip(out, x, y);
    }
    if out + x == out + " scan"@ {
        apart::lemma_strip(out, x, " scan"@);
    }
}

// ---- what two plans have in common ------------------------------------------

/// Two parts of a seek do the same, but for the bytes of a constant.
pub open spec fn same_part(a: SeekKeyPart, b: SeekKeyPart) -> bool {
    match (a, b) {
        (SeekKeyPart::Bytes(_), SeekKeyPart::Bytes(_)) => true,
        (
            SeekKeyPart::RegisterField { address, path },
            SeekKeyPart::RegisterField { address: other, path: way },
        ) => address == other && same_path(path, way),
        (SeekKeyPart::RegisterFactId(address), SeekKeyPart::RegisterFactId(other)) => address
            == other,
        _ => false,
    }
}

/// Two seeks do the same, but for the bytes of constants: both scan the whole predicate, or
/// neither does; and one by a constant alone may be either way to have one.
pub open spec fn same_seek(a: SeekKey, b: SeekKey) -> bool {
    match (a, b) {
        (SeekKey::Prefix(p), SeekKey::Prefix(q)) => (p@.len() == 0) == (q@.len() == 0),
        (SeekKey::Composite(p), SeekKey::Composite(q)) => p@.len() == q@.len() && forall|i: int|
            0 <= i < p@.len() ==> same_part(#[trigger] p@[i], q@[i]),
        (SeekKey::Prefix(p), SeekKey::Composite(q)) => p@.len() > 0 && q@.len() == 1
            && q@[0] is Bytes,
        (SeekKey::Composite(p), SeekKey::Prefix(q)) => q@.len() > 0 && p@.len() == 1
            && p@[0] is Bytes,
    }
}

/// Two sources are opened in the same way.
pub open spec fn same_opening(a: Source, b: Source) -> bool {
    match (a, b) {
        (Source::Seek { access, .. }, Source::Seek { access: other, .. }) => same_seek(
            access.seek_key,
            other.seek_key,
        ),
        (
            Source::Fetch { reference, path, .. },
            Source::Fetch { reference: other, path: way, .. },
        ) => reference == other && same_path(path, way),
        _ => false,
    }
}

/// Two filters ask for the same of the same field, but for the bytes of a constant.
pub open spec fn same_filter(a: Residual, b: Residual) -> bool {
    same_path(a.path, b.path) && match (a.op, b.op) {
        (ResidualOp::EqConst(_), ResidualOp::EqConst(_)) => true,
        (ResidualOp::Prefix(_), ResidualOp::Prefix(_)) => true,
        (
            ResidualOp::EqRegisterField { address, path },
            ResidualOp::EqRegisterField { address: other, path: way },
        ) => address == other && same_path(path, way),
        (ResidualOp::EqRegisterFactId(address), ResidualOp::EqRegisterFactId(other)) => address
            == other,
        _ => false,
    }
}

/// Two sources range over the same facts in the same way.
pub open spec fn same_source(a: Source, b: Source) -> bool {
    &&& a.predicate() == b.predicate()
    &&& same_opening(a, b)
    &&& a.filters()@.len() == b.filters()@.len()
    &&& forall|i: int|
        0 <= i < a.filters()@.len() ==> same_filter(#[trigger] a.filters()@[i], b.filters()@[i])
}

pub open spec fn same_sources(a: Seq<Source>, b: Seq<Source>) -> bool {
    &&& a.len() == b.len()
    &&& forall|i: int| 0 <= i < a.len() ==> same_source(#[trigger] a[i], b[i])
}

/// Two steps do the same.
pub open spec fn same_step(a: Step, b: Step) -> bool {
    match (a, b) {
        (Step::Level(x), Step::Level(y)) => same_sources(x.sources@, y.sources@),
        (Step::Derive(x), Step::Derive(y)) => x.bind == y.bind,
        (Step::Test(Test::Absent(x)), Step::Test(Test::Absent(y))) => same_sources(x@, y@),
        _ => false,
    }
}

// ---- what can be rendered ---------------------------------------------------

/// A register's field is one of the rows it holds.
pub open spec fn reads_well(
    program: Program,
    schema: Schema,
    address: Address,
    path: FieldPath,
) -> bool {
    path_fits(schema, print::register_ty(program, schema, address), path)
}

pub open spec fn part_well(program: Program, schema: Schema, part: SeekKeyPart) -> bool {
    part matches SeekKeyPart::RegisterField { address, path } ==> reads_well(
        program,
        schema,
        address,
        path,
    )
}

/// A source's predicate has a name, and every field it reads is one of the rows it is read of.
pub open spec fn source_well(program: Program, schema: Schema, source: Source) -> bool {
    &&& print::declared_name(schema, source.predicate()) matches Some(name) && is_part(name)
    &&& match source {
        Source::Seek { access, .. } => access.seek_key matches SeekKey::Composite(parts) ==> (
        forall|i: int|
            0 <= i < parts@.len() ==> part_well(program, schema, #[trigger] parts@[i])),
        Source::Fetch { reference, path, .. } => reads_well(program, schema, reference, path),
    }
    &&& forall|i: int|
        0 <= i < source.filters()@.len() ==> path_fits(
            schema,
            print::key_ty(schema, source.predicate()),
            (#[trigger] source.filters()@[i]).path,
        ) && (source.filters()@[i].op matches ResidualOp::EqRegisterField { address, path }
            ==> reads_well(program, schema, address, path))
}

pub open spec fn sources_well(program: Program, schema: Schema, sources: Seq<Source>) -> bool {
    forall|i: int| 0 <= i < sources.len() ==> source_well(program, schema, #[trigger] sources[i])
}

/// Every step ranges over named predicates and reads fields that are there, and each level
/// fills the register of its number.
pub open spec fn renderable(program: Program, schema: Schema) -> bool {
    forall|k: int|
        0 <= k < program.body@.len() ==> match #[trigger] program.body@[k] {
            Step::Level(level) => {
                &&& sources_well(program, schema, level.sources@)
                &&& forall|address: Address|
                    level.binds@.contains(address) <==> #[trigger] (address.0 as nat)
                        == program::level_count(program.body@.take(k))
            },
            Step::Test(Test::Absent(sources)) => sources_well(program, schema, sources@),
            Step::Derive(_) => true,
        }
}

/// A schema that names its predicates apart.
pub open spec fn predicates_apart(schema: Schema) -> bool {
    forall|p: PredicateId, q: PredicateId|
        #![trigger print::declared_name(schema, p), print::declared_name(schema, q)]
        print::declared_name(schema, p) is Some && print::declared_name(schema, p)
            == print::declared_name(schema, q) ==> p == q
}

// ---- reading it off ---------------------------------------------------------

/// What a part of a seek or a filter is filled from.
enum Named {
    Const,
    Field(Address, FieldPath),
    Id(Address),
}

spec fn named_text(program: Program, schema: Schema, named: Named) -> Seq<char> {
    match named {
        Named::Const => "<const>"@,
        Named::Field(address, path) => print::register_field(program, schema, address, path),
        Named::Id(address) => address.shown() + "#"@,
    }
}

spec fn named_well(program: Program, schema: Schema, named: Named) -> bool {
    named matches Named::Field(address, path) ==> reads_well(program, schema, address, path)
}

spec fn same_named(a: Named, b: Named) -> bool {
    match (a, b) {
        (Named::Const, Named::Const) => true,
        (Named::Field(x, p), Named::Field(y, q)) => x == y && same_path(p, q),
        (Named::Id(x), Named::Id(y)) => x == y,
        _ => false,
    }
}

spec fn part_named(part: SeekKeyPart) -> Named {
    match part {
        SeekKeyPart::Bytes(_) => Named::Const,
        SeekKeyPart::RegisterField { address, path } => Named::Field(address, path),
        SeekKeyPart::RegisterFactId(address) => Named::Id(address),
    }
}

/// Registers of two programs hold rows of the same types.
spec fn same_registers(a: Program, b: Program, schema: Schema) -> bool {
    forall|address: Address| #[trigger]
        print::register_ty(a, schema, address) == print::register_ty(b, schema, address)
}

proof fn lemma_named_part(program: Program, schema: Schema, named: Named)
    requires
        named_well(program, schema, named),
    ensures
        is_part(named_text(program, schema, named)),
{
    reveal_strlit("<const>");
    reveal_strlit("r");
    reveal_strlit("#");
    reveal_strlit(".");
    match named {
        Named::Const => {},
        Named::Field(address, path) => {
            let ty = print::register_ty(program, schema, address);
            lemma_field_part(schema, ty, path);
            lexer::lemma_decimal(address.0 as nat);
            let (n, field) = (
                text::decimal(address.0 as nat),
                print::field_named(schema, ty, path),
            );
            let all = named_text(program, schema, named);
            assert(all == "r"@ + n + "."@ + field);
            assert forall|i: int| 0 <= i < all.len() implies in_part()(#[trigger] all[i]) by {
                if 1 <= i < 1 + n.len() {
                    assert(all[i] == n[i - 1]);
                } else if i > 1 + n.len() {
                    assert(all[i] == field[i - 2 - n.len()]);
                }
            }
        },
        Named::Id(address) => {
            lexer::lemma_decimal(address.0 as nat);
            let n = text::decimal(address.0 as nat);
            let all = named_text(program, schema, named);
            assert(all == "r"@ + n + "#"@);
            assert forall|i: int| 0 <= i < all.len() implies in_part()(#[trigger] all[i]) by {
                if 1 <= i < 1 + n.len() {
                    assert(all[i] == n[i - 1]);
                }
            }
        },
    }
}

/// A field of a register is told from any other.
proof fn lemma_register_apart(
    a: Program,
    b: Program,
    schema: Schema,
    x: Address,
    p: FieldPath,
    y: Address,
    q: FieldPath,
    s: Seq<char>,
    t: Seq<char>,
)
    requires
        same_registers(a, b, schema),
        reads_well(a, schema, x, p),
        reads_well(b, schema, y, q),
        s.len() > 0 ==> !in_name()(s[0]) && s[0] != '.',
        t.len() > 0 ==> !in_name()(t[0]) && t[0] != '.',
        print::register_field(a, schema, x, p) + s == print::register_field(b, schema, y, q) + t,
    ensures
        x == y,
        same_path(p, q),
        s == t,
{
    reveal_strlit(".");
    let (c, d) = (
        print::register_ty(a, schema, x),
        print::register_ty(b, schema, y),
    );
    let (f, g) = (print::field_named(schema, c, p), print::field_named(schema, d, q));
    let (m, n) = (x.0 as nat, y.0 as nat);
    assert(print::register_field(a, schema, x, p) + s =~= "r"@ + (text::decimal(m) + ("."@ + (f
        + s))));
    assert(print::register_field(b, schema, y, q) + t =~= "r"@ + (text::decimal(n) + ("."@ + (g
        + t))));
    let (u, v) = ("."@ + (f + s), "."@ + (g + t));
    apart::lemma_strip("r"@, text::decimal(m) + u, text::decimal(n) + v);
    apart::lemma_decimals(m, n, u, v);
    apart::lemma_strip("."@, f + s, g + t);
    assert(x == y);
    assert(c == print::register_ty(b, schema, x));
    lemma_words(schema, c, p);
    lemma_words(schema, c, q);
    lemma_joined(in_name(), "."@, words(schema, c, p), words(schema, c, q), 0, s, t);
    assert(words(schema, c, p) =~= words(schema, c, q));
    lemma_paths_apart(schema, c, p, q);
}

proof fn lemma_named_apart(a: Program, b: Program, schema: Schema, x: Named, y: Named)
    requires
        same_registers(a, b, schema),
        named_well(a, schema, x),
        named_well(b, schema, y),
        named_text(a, schema, x) == named_text(b, schema, y),
    ensures
        same_named(x, y),
{
    reveal_strlit("<const>");
    reveal_strlit("r");
    reveal_strlit("#");
    reveal_strlit(".");
    let none = Seq::<char>::empty();
    let (p, q) = (named_text(a, schema, x), named_text(b, schema, y));
    assert(p[0] == (if x is Const {
        '<'
    } else {
        'r'
    }));
    assert(q[0] == (if y is Const {
        '<'
    } else {
        'r'
    }));
    match (x, y) {
        (Named::Field(m, u), Named::Field(n, v)) => {
            assert(p + none =~= p);
            assert(q + none =~= q);
            lemma_register_apart(a, b, schema, m, u, n, v, none, none);
        },
        (Named::Id(m), Named::Id(n)) => {
            assert(p =~= "r"@ + (text::decimal(m.0 as nat) + "#"@));
            assert(q =~= "r"@ + (text::decimal(n.0 as nat) + "#"@));
            apart::lemma_strip(
                "r"@,
                text::decimal(m.0 as nat) + "#"@,
                text::decimal(n.0 as nat) + "#"@,
            );
            apart::lemma_decimals(m.0 as nat, n.0 as nat, "#"@, "#"@);
        },
        (Named::Field(m, u), Named::Id(n)) => {
            let f = print::field_named(schema, print::register_ty(a, schema, m), u);
            assert(p =~= "r"@ + (text::decimal(m.0 as nat) + ("."@ + f)));
            assert(q =~= "r"@ + (text::decimal(n.0 as nat) + "#"@));
            apart::lemma_strip(
                "r"@,
                text::decimal(m.0 as nat) + ("."@ + f),
                text::decimal(n.0 as nat) + "#"@,
            );
            apart::lemma_decimals(m.0 as nat, n.0 as nat, "."@ + f, "#"@);
            assert(("."@ + f)[0] == '.');
        },
        (Named::Id(m), Named::Field(n, v)) => {
            let f = print::field_named(schema, print::register_ty(b, schema, n), v);
            assert(p =~= "r"@ + (text::decimal(m.0 as nat) + "#"@));
            assert(q =~= "r"@ + (text::decimal(n.0 as nat) + ("."@ + f)));
            apart::lemma_strip(
                "r"@,
                text::decimal(m.0 as nat) + "#"@,
                text::decimal(n.0 as nat) + ("."@ + f),
            );
            apart::lemma_decimals(m.0 as nat, n.0 as nat, "#"@, "."@ + f);
            assert(("."@ + f)[0] == '.');
        },
        _ => {},
    }
}

proof fn lemma_shown_well(program: Program, schema: Schema, source: Source)
    requires
        source_well(program, schema, source),
    ensures
        shown_well(shown(program, schema, source)),
{
    let s = shown(program, schema, source);
    lemma_named_part(program, schema, Named::Const);
    match source {
        Source::Seek { access, .. } => match access.seek_key {
            SeekKey::Prefix(bytes) => {
                assert(seq!["<const>"@][0] == "<const>"@);
            },
            SeekKey::Composite(parts) => {
                let all = s.opened->Seek_0;
                assert forall|i: int| 0 <= i < all.len() implies is_part(
                    #[trigger] all[i],
                ) by {
                    assert(part_well(program, schema, parts@[i]));
                    lemma_named_part(program, schema, part_named(parts@[i]));
                }
            },
        },
        Source::Fetch { reference, path, .. } => lemma_named_part(
            program,
            schema,
            Named::Field(reference, path),
        ),
    }
    let filters = source.filters()@;
    assert forall|i: int| 0 <= i < s.filters.len() implies is_part((#[trigger] s.filters[i]).0)
        && asked_well(s.filters[i].1) by {
        let own = filters[i];
        lemma_field_part(schema, print::key_ty(schema, source.predicate()), own.path);
        match own.op {
            ResidualOp::EqRegisterField { address, path } => lemma_named_part(
                program,
                schema,
                Named::Field(address, path),
            ),
            ResidualOp::EqRegisterFactId(address) => lemma_named_part(
                program,
                schema,
                Named::Id(address),
            ),
            _ => {},
        }
    }
}

proof fn lemma_steps_well(program: Program, schema: Schema, k: int)
    requires
        renderable(program, schema),
        0 <= k < program.body@.len(),
    ensures
        step_well(step_shown(program, schema, k)),
{
    let sources = match program.body@[k] {
        Step::Level(level) => level.sources@,
        Step::Test(Test::Absent(sources)) => sources@,
        Step::Derive(_) => Seq::empty(),
    };
    assert(sources_well(program, schema, sources)) by {
        match program.body@[k] {
            Step::Level(level) => {},
            _ => {},
        }
    }
    let all = all_shown(program, schema, sources);
    assert forall|i: int| 0 <= i < all.len() implies shown_well(#[trigger] all[i]) by {
        assert(source_well(program, schema, sources[i]));
        lemma_shown_well(program, schema, sources[i]);
    }
}

/// Sources that are shown alike are of the same predicates.
proof fn lemma_predicates(
    a: Program,
    b: Program,
    schema: Schema,
    x: Seq<Source>,
    y: Seq<Source>,
)
    requires
        predicates_apart(schema),
        sources_well(a, schema, x),
        sources_well(b, schema, y),
        all_shown(a, schema, x) == all_shown(b, schema, y),
    ensures
        x.len() == y.len(),
        forall|i: int| 0 <= i < x.len() ==> (#[trigger] x[i]).predicate() == y[i].predicate(),
{
    let (m, n) = (all_shown(a, schema, x), all_shown(b, schema, y));
    assert(m.len() == x.len() && n.len() == y.len());
    assert forall|i: int| 0 <= i < x.len() implies (#[trigger] x[i]).predicate()
        == y[i].predicate() by {
        assert(source_well(a, schema, x[i]) && source_well(b, schema, y[i]));
        assert(m[i].name == n[i].name);
        assert(m[i] == shown(a, schema, x[i]));
        assert(n[i] == shown(b, schema, y[i]));
        assert(print::declared_name(schema, x[i].predicate()) == print::declared_name(
            schema,
            y[i].predicate(),
        ));
    }
}

proof fn lemma_all_of_one(x: Level, y: Level)
    requires
        x.sources@.len() == y.sources@.len(),
        forall|i: int|
            0 <= i < x.sources@.len() ==> (#[trigger] x.sources@[i]).predicate()
                == y.sources@[i].predicate(),
        x.predicate() is Some,
    ensures
        y.predicate() == x.predicate(),
{
    assert(x.sources@[0].predicate() == y.sources@[0].predicate());
    assert forall|i: int| 0 <= i < y.sources@.len() implies (#[trigger] y.sources@[i]).predicate()
        == y.sources@[0].predicate() by {
        assert(x.sources@[i].predicate() == y.sources@[i].predicate());
    }
}

proof fn lemma_level_predicate(x: Level, y: Level)
    requires
        x.sources@.len() == y.sources@.len(),
        forall|i: int|
            0 <= i < x.sources@.len() ==> (#[trigger] x.sources@[i]).predicate()
                == y.sources@[i].predicate(),
    ensures
        x.predicate() == y.predicate(),
{
    if x.predicate() is Some {
        lemma_all_of_one(x, y);
    }
    if y.predicate() is Some {
        assert forall|i: int| 0 <= i < y.sources@.len() implies (
        #[trigger] y.sources@[i]).predicate() == x.sources@[i].predicate() by {
            assert(x.sources@[i].predicate() == y.sources@[i].predicate());
        }
        lemma_all_of_one(y, x);
    }
}

/// Registers are filled by levels that are shown alike.
proof fn lemma_binders(a: Program, b: Program, schema: Schema, address: Address, k: nat)
    requires
        predicates_apart(schema),
        renderable(a, schema),
        renderable(b, schema),
        steps_shown(a, schema) == steps_shown(b, schema),
        k <= a.body@.len(),
    ensures
        a.body@.len() == b.body@.len(),
        match (
            print::binder(a.body@.take(k as int), address),
            print::binder(b.body@.take(k as int), address),
        ) {
            (None, None) => true,
            (Some(x), Some(y)) => x.predicate() == y.predicate(),
            _ => false,
        },
    decreases k,
{
    assert(steps_shown(a, schema).len() == a.body@.len());
    assert(steps_shown(b, schema).len() == b.body@.len());
    if k > 0 {
        let j = (k - 1) as nat;
        lemma_binders(a, b, schema, address, j);
        let (p, q) = (a.body@.take(k as int), b.body@.take(k as int));
        assert(p.drop_last() =~= a.body@.take(j as int));
        assert(q.drop_last() =~= b.body@.take(j as int));
        assert(p.last() == a.body@[j as int] && q.last() == b.body@[j as int]);
        assert(steps_shown(a, schema)[j as int] == step_shown(a, schema, j as int));
        assert(steps_shown(b, schema)[j as int] == step_shown(b, schema, j as int));
        if let Step::Level(x) = a.body@[j as int] {
            assert(b.body@[j as int] is Level);
            let y = b.body@[j as int]->Level_0;
            lemma_predicates(a, b, schema, x.sources@, y.sources@);
            lemma_level_predicate(x, y);
            assert(x.binds@.contains(address) <==> (address.0 as nat) == program::level_count(
                a.body@.take(j as int),
            ));
            assert(y.binds@.contains(address) <==> (address.0 as nat) == program::level_count(
                b.body@.take(j as int),
            ));
        }
    }
}

proof fn lemma_registers(a: Program, b: Program, schema: Schema)
    requires
        predicates_apart(schema),
        renderable(a, schema),
        renderable(b, schema),
        steps_shown(a, schema) == steps_shown(b, schema),
    ensures
        same_registers(a, b, schema),
        a.body@.len() == b.body@.len(),
{
    assert forall|address: Address| #[trigger]
        print::register_ty(a, schema, address) == print::register_ty(b, schema, address) by {
        lemma_binders(a, b, schema, address, a.body@.len());
        assert(a.body@.take(a.body@.len() as int) =~= a.body@);
        assert(b.body@.take(b.body@.len() as int) =~= b.body@);
    }
    lemma_binders(a, b, schema, Address(0), 0);
}

proof fn lemma_same_source(a: Program, b: Program, schema: Schema, x: Source, y: Source)
    requires
        same_registers(a, b, schema),
        source_well(a, schema, x),
        source_well(b, schema, y),
        x.predicate() == y.predicate(),
        shown(a, schema, x) == shown(b, schema, y),
    ensures
        same_source(x, y),
{
    let (s, t) = (shown(a, schema, x), shown(b, schema, y));
    assert(same_opening(x, y)) by {
        lemma_same_opening(a, b, schema, x, y);
    }
    let (f, g) = (x.filters()@, y.filters()@);
    assert(s.filters.len() == f.len() && t.filters.len() == g.len());
    let ty = print::key_ty(schema, x.predicate());
    assert forall|i: int| 0 <= i < f.len() implies same_filter(#[trigger] f[i], g[i]) by {
        let (p, q) = (f[i], g[i]);
        assert(s.filters[i] == t.filters[i]);
        let none = Seq::<char>::empty();
        lemma_words(schema, ty, p.path);
        lemma_words(schema, ty, q.path);
        let (m, n) = (words(schema, ty, p.path), words(schema, ty, q.path));
        reveal_strlit(".");
        assert(joined("."@, m, 0) + none == joined("."@, n, 0) + none);
        lemma_joined(in_name(), "."@, m, n, 0, none, none);
        assert(m =~= n);
        lemma_paths_apart(schema, ty, p.path, q.path);
        lemma_same_op(a, b, schema, p.op, q.op);
    }
}

spec fn op_named(op: ResidualOp) -> Named {
    match op {
        ResidualOp::EqRegisterField { address, path } => Named::Field(address, path),
        ResidualOp::EqRegisterFactId(address) => Named::Id(address),
        _ => Named::Const,
    }
}

proof fn lemma_same_op(a: Program, b: Program, schema: Schema, x: ResidualOp, y: ResidualOp)
    requires
        same_registers(a, b, schema),
        named_well(a, schema, op_named(x)),
        named_well(b, schema, op_named(y)),
        asked(a, schema, x) == asked(b, schema, y),
    ensures
        (x is Prefix) == (y is Prefix),
        !(x is Prefix) ==> same_named(op_named(x), op_named(y)),
{
    if !(x is Prefix) && !(y is Prefix) {
        lemma_named_apart(a, b, schema, op_named(x), op_named(y));
    }
}

proof fn lemma_same_opening(a: Program, b: Program, schema: Schema, x: Source, y: Source)
    requires
        same_registers(a, b, schema),
        source_well(a, schema, x),
        source_well(b, schema, y),
        opened(a, schema, x) == opened(b, schema, y),
    ensures
        same_opening(x, y),
{
    match (x, y) {
        (Source::Seek { access, .. }, Source::Seek { access: other, .. }) => {
            match (access.seek_key, other.seek_key) {
                (SeekKey::Composite(p), SeekKey::Composite(q)) => {
                    let (m, n) = (
                        opened(a, schema, x)->Seek_0,
                        opened(b, schema, y)->Seek_0,
                    );
                    assert(m.len() == p@.len() && n.len() == q@.len());
                    assert forall|i: int| 0 <= i < p@.len() implies same_part(
                        #[trigger] p@[i],
                        q@[i],
                    ) by {
                        assert(m[i] == n[i]);
                        assert(part_well(a, schema, p@[i]) && part_well(b, schema, q@[i]));
                        lemma_named_apart(a, b, schema, part_named(p@[i]), part_named(q@[i]));
                    }
                },
                (SeekKey::Prefix(p), SeekKey::Composite(q)) => {
                    let n = opened(b, schema, y)->Seek_0;
                    assert(n.len() == q@.len());
                    if p@.len() > 0 {
                        assert(n == seq!["<const>"@]);
                        assert(n.len() == 1 && n[0] == "<const>"@);
                        assert(part_well(b, schema, q@[0]));
                        lemma_named_apart(a, b, schema, Named::Const, part_named(q@[0]));
                    }
                },
                (SeekKey::Composite(p), SeekKey::Prefix(q)) => {
                    let m = opened(a, schema, x)->Seek_0;
                    assert(m.len() == p@.len());
                    if q@.len() > 0 {
                        assert(m == seq!["<const>"@]);
                        assert(m.len() == 1 && m[0] == "<const>"@);
                        assert(part_well(a, schema, p@[0]));
                        lemma_named_apart(a, b, schema, part_named(p@[0]), Named::Const);
                    }
                },
                _ => {},
            }
        },
        (
            Source::Fetch { reference, path, .. },
            Source::Fetch { reference: other, path: way, .. },
        ) => {
            lemma_named_apart(
                a,
                b,
                schema,
                Named::Field(reference, path),
                Named::Field(other, way),
            );
        },
        _ => {},
    }
}

/// How a plan is rendered tells what it does: two plans that are rendered alike have the same
/// steps, over the same predicates, opened in the same ways, by the same registers and fields,
/// with the same filters, and heads that make the same rows. Only the bytes of constants and
/// the types of what is projected are not shown. The plans' levels fill the registers of their
/// numbers and read fields that are there; the schema names its predicates, and the fields of
/// each record, apart; and where a head has strings, what `Debug` shows of them tells them
/// apart.
pub proof fn law_a_rendering_tells_what_a_plan_does(
    a: Program,
    b: Program,
    schema: Schema,
    names: Names,
    strings: bool,
)
    requires
        predicates_apart(schema),
        renderable(a, schema),
        renderable(b, schema),
        head_well(a, schema, names, a.head.shape(), strings),
        head_well(b, schema, names, b.head.shape(), strings),
        print::plan_shown(a, schema, names) == print::plan_shown(b, schema, names),
    ensures
        a.body@.len() == b.body@.len(),
        forall|k: int|
            0 <= k < a.body@.len() ==> same_step(#[trigger] a.body@[k], b.body@[k]),
        (strings ==> forms::strings_told_apart()) ==> same_head(
            names,
            a.head.shape(),
            b.head.shape(),
        ),
{
    lemma_plan(a, schema, names);
    lemma_plan(b, schema, names);
    let (x, y) = (steps_shown(a, schema), steps_shown(b, schema));
    let (p, q) = (
        head_text(a, schema, names, a.head.shape()),
        head_text(b, schema, names, b.head.shape()),
    );
    lemma_head(a, schema, names, a.head.shape(), steps_text(x, 0) + "  head "@);
    lemma_head(b, schema, names, b.head.shape(), steps_text(y, 0) + "  head "@);
    assert(steps_text(x, 0) + "  head "@ + p =~= steps_text(x, 0) + head_line(p));
    assert(steps_text(y, 0) + "  head "@ + q =~= steps_text(y, 0) + head_line(q));
    assert forall|i: int| 0 <= i < x.len() implies step_well(#[trigger] x[i]) by {
        lemma_steps_well(a, schema, i);
    }
    assert forall|i: int| 0 <= i < y.len() implies step_well(#[trigger] y[i]) by {
        lemma_steps_well(b, schema, i);
    }
    lemma_steps_apart(x, y, 0, p, q);
    assert(x =~= y);
    lemma_registers(a, b, schema);
    assert forall|k: int| 0 <= k < a.body@.len() implies same_step(
        #[trigger] a.body@[k],
        b.body@[k],
    ) by {
        assert(x[k] == step_shown(a, schema, k));
        assert(y[k] == step_shown(b, schema, k));
        lemma_same_step(a, b, schema, k);
    }
    if strings ==> forms::strings_told_apart() {
        let none = Seq::<char>::empty();
        assert(p + none =~= p);
        assert(q + none =~= q);
        lemma_head_apart(
            a,
            b,
            schema,
            names,
            a.head.shape(),
            b.head.shape(),
            none,
            none,
            strings,
        );
    }
}

proof fn lemma_same_step(a: Program, b: Program, schema: Schema, k: int)
    requires
        predicates_apart(schema),
        same_registers(a, b, schema),
        renderable(a, schema),
        renderable(b, schema),
        0 <= k < a.body@.len(),
        k < b.body@.len(),
        step_shown(a, schema, k) == step_shown(b, schema, k),
    ensures
        same_step(a.body@[k], b.body@[k]),
{
    match (a.body@[k], b.body@[k]) {
        (Step::Level(x), Step::Level(y)) => lemma_same_sources(
            a,
            b,
            schema,
            x.sources@,
            y.sources@,
        ),
        (Step::Test(Test::Absent(x)), Step::Test(Test::Absent(y))) => lemma_same_sources(
            a,
            b,
            schema,
            x@,
            y@,
        ),
        _ => {},
    }
}

proof fn lemma_same_sources(
    a: Program,
    b: Program,
    schema: Schema,
    x: Seq<Source>,
    y: Seq<Source>,
)
    requires
        predicates_apart(schema),
        same_registers(a, b, schema),
        sources_well(a, schema, x),
        sources_well(b, schema, y),
        all_shown(a, schema, x) == all_shown(b, schema, y),
    ensures
        same_sources(x, y),
{
    lemma_predicates(a, b, schema, x, y);
    let (m, n) = (all_shown(a, schema, x), all_shown(b, schema, y));
    assert forall|i: int| 0 <= i < x.len() implies same_source(#[trigger] x[i], y[i]) by {
        assert(m[i] == shown(a, schema, x[i]));
        assert(n[i] == shown(b, schema, y[i]));
        assert(source_well(a, schema, x[i]) && source_well(b, schema, y[i]));
        lemma_same_source(a, b, schema, x[i], y[i]);
    }
}

// ---- heads ------------------------------------------------------------------

/// A value as text.
spec fn value_text(value: Datum) -> Seq<char>
    decreases value, 1nat, 0nat,
{
    match value {
        Datum::Int(v) => "Int("@ + (text::signed_decimal(v as int) + ")"@),
        Datum::Str(s) => "Str("@ + (print::debug_text(s) + ")"@),
        Datum::FactRef(id) => "FactRef(FactId("@ + (text::decimal(id.bits() as nat) + "))"@),
        Datum::Record(_) => "Record(["@ + (members_text(value, 0) + "])"@),
    }
}

spec fn members_text(value: Datum, k: nat) -> Seq<char>
    decreases value, 0nat, value->Record_0.len() - k,
{
    match value {
        Datum::Record(fields) => if k < fields.len() {
            between(", "@, k) + ("("@ + (print::debug_text(fields[k as int].0) + (", "@ + (
            value_text(fields[k as int].1) + (")"@ + members_text(value, k + 1))))))
        } else {
            Seq::empty()
        },
        _ => Seq::empty(),
    }
}

/// A head as text.
spec fn head_text(program: Program, schema: Schema, names: Names, head: Projection) -> Seq<char>
    decreases head, 1nat, 0nat,
{
    match head {
        Projection::Lit(value) => value_text(value),
        Projection::FactRef(address) => address.shown() + "#"@,
        Projection::RegisterField { address, path, .. } => print::register_field(
            program,
            schema,
            address,
            path,
        ),
        Projection::Value { address, .. } => address.shown() + ".value"@,
        Projection::Computed(address) => address.shown() + "="@,
        Projection::Record(_) => "{"@ + (pieces_text(program, schema, names, head, 0) + "}"@),
    }
}

spec fn pieces_text(
    program: Program,
    schema: Schema,
    names: Names,
    head: Projection,
    k: nat,
) -> Seq<char>
    decreases head, 0nat, head->Record_0.len() - k,
{
    match head {
        Projection::Record(fields) => if k < fields.len() {
            between(", "@, k) + (names.shown(fields[k as int].0) + (" = "@ + (head_text(
                program,
                schema,
                names,
                fields[k as int].1,
            ) + pieces_text(program, schema, names, head, k + 1))))
        } else {
            Seq::empty()
        },
        _ => Seq::empty(),
    }
}

proof fn lemma_value(value: Datum, out: Seq<char>)
    ensures
        print::value_onto(out, value) == out + value_text(value),
    decreases value, 1nat, 0nat,
{
    match value {
        Datum::Record(fields) => {
            lemma_members(value, out + "Record(["@, fields.len());
            let done = print::members_onto(out + "Record(["@, value, fields.len());
            assert(members_text(value, fields.len()) =~= Seq::<char>::empty());
            assert(done + Seq::<char>::empty() =~= done);
            let a = members_text(value, 0);
            assert(out + "Record(["@ + a + "])"@ =~= out + ("Record(["@ + (a + "])"@)));
        },
        _ => {
            assert(print::value_onto(out, value) =~= out + value_text(value));
        },
    }
}

proof fn lemma_members(value: Datum, out: Seq<char>, k: nat)
    requires
        value is Record,
        k <= value->Record_0.len(),
    ensures
        print::members_onto(out, value, k) + members_text(value, k) == out + members_text(value, 0),
    decreases value, 0nat, k,
{
    if k > 0 {
        let j = (k - 1) as nat;
        lemma_members(value, out, j);
        let (name, inner) = value->Record_0[k - 1];
        let so_far = print::members_onto(out, value, j);
        let here = (if k > 1 {
            so_far + ", "@
        } else {
            so_far
        }) + "("@ + print::debug_text(name) + ", "@;
        lemma_value(inner, here);
        let (a, b, c) = (print::debug_text(name), value_text(inner), members_text(value, k));
        assert(here + b + ")"@ + c =~= so_far + (between(", "@, j) + ("("@ + (a + (", "@ + (b + (
        ")"@ + c)))))));
    }
}

proof fn lemma_head(
    program: Program,
    schema: Schema,
    names: Names,
    head: Projection,
    out: Seq<char>,
)
    ensures
        print::projection_onto(out, program, schema, names, head) == out + head_text(
            program,
            schema,
            names,
            head,
        ),
    decreases head, 1nat, 0nat,
{
    match head {
        Projection::Lit(value) => lemma_value(value, out),
        Projection::Record(fields) => {
            let start = out + "{"@;
            lemma_pieces(program, schema, names, head, start, fields.len());
            let done = print::pieces_onto(start, program, schema, names, head, fields.len());
            assert(pieces_text(program, schema, names, head, fields.len())
                =~= Seq::<char>::empty());
            assert(done + Seq::<char>::empty() =~= done);
            let a = pieces_text(program, schema, names, head, 0);
            assert(out + "{"@ + a + "}"@ =~= out + ("{"@ + (a + "}"@)));
        },
        _ => {
            assert(print::projection_onto(out, program, schema, names, head) =~= out + head_text(
                program,
                schema,
                names,
                head,
            ));
        },
    }
}

proof fn lemma_pieces(
    program: Program,
    schema: Schema,
    names: Names,
    head: Projection,
    out: Seq<char>,
    k: nat,
)
    requires
        head is Record,
        k <= head->Record_0.len(),
    ensures
        print::pieces_onto(out, program, schema, names, head, k) + pieces_text(
            program,
            schema,
            names,
            head,
            k,
        ) == out + pieces_text(program, schema, names, head, 0),
    decreases head, 0nat, k,
{
    if k > 0 {
        let j = (k - 1) as nat;
        lemma_pieces(program, schema, names, head, out, j);
        let (name, inner) = head->Record_0[k - 1];
        let so_far = print::pieces_onto(out, program, schema, names, head, j);
        let here = (if k > 1 {
            so_far + ", "@
        } else {
            so_far
        }) + names.shown(name) + " = "@;
        lemma_head(program, schema, names, inner, here);
        let (a, b) = (names.shown(name), head_text(program, schema, names, inner));
        let c = pieces_text(program, schema, names, head, k);
        assert(here + b + c =~= so_far + (between(", "@, j) + (a + (" = "@ + (b + c)))));
    }
}

/// Two heads make the same rows. A record's fields go by how their names read, and types are
/// not shown.
pub open spec fn same_head(names: Names, a: Projection, b: Projection) -> bool
    decreases a,
{
    match (a, b) {
        (Projection::Lit(x), Projection::Lit(y)) => x == y,
        (Projection::FactRef(x), Projection::FactRef(y)) => x == y,
        (
            Projection::RegisterField { address, path, .. },
            Projection::RegisterField { address: other, path: way, .. },
        ) => address == other && same_path(path, way),
        (
            Projection::Value { address, .. },
            Projection::Value { address: other, .. },
        ) => address == other,
        (Projection::Computed(x), Projection::Computed(y)) => x == y,
        (Projection::Record(x), Projection::Record(y)) => x.len() == y.len() && forall|i: int|
            0 <= i < x.len() ==> names.shown((#[trigger] x[i]).0) == names.shown(y[i].0)
                && same_head(names, x[i].1, y[i].1),
        _ => false,
    }
}

/// Whether a value has strings in it.
pub open spec fn has_strings(value: Datum) -> bool {
    value is Str || value is Record
}

/// A head whose fields are there and have names, and which has strings only if it may.
pub open spec fn head_well(
    program: Program,
    schema: Schema,
    names: Names,
    head: Projection,
    strings: bool,
) -> bool
    decreases head,
{
    match head {
        Projection::Lit(value) => has_strings(value) ==> strings,
        Projection::RegisterField { address, path, .. } => reads_well(
            program,
            schema,
            address,
            path,
        ),
        Projection::Record(fields) => forall|i: int|
            0 <= i < fields.len() ==> is_name(names.shown((#[trigger] fields[i]).0)) && head_well(
                program,
                schema,
                names,
                fields[i].1,
                strings,
            ),
        _ => true,
    }
}

proof fn lemma_value_start(value: Datum, s: Seq<char>)
    ensures
        ({
            let x = value_text(value) + s;
            x.len() > 0 && x[0] == (match value {
                Datum::Int(_) => 'I',
                Datum::Str(_) => 'S',
                Datum::FactRef(_) => 'F',
                Datum::Record(_) => 'R',
            })
        }),
{
    reveal_strlit("Int(");
    reveal_strlit("Str(");
    reveal_strlit("FactRef(FactId(");
    reveal_strlit("Record([");
}

proof fn lemma_wrapped(p: Seq<char>, a: Seq<char>, q: Seq<char>, s: Seq<char>)
    ensures
        (p + (a + q)) + s == p + (a + (q + s)),
{
    assert((p + (a + q)) + s =~= p + (a + (q + s)));
}

proof fn lemma_strings(a: Seq<char>, b: Seq<char>, s: Seq<char>, t: Seq<char>)
    requires
        forms::strings_told_apart(),
        print::debug_text(a) + s == print::debug_text(b) + t,
    ensures
        a == b,
        s == t,
{
    reveal(forms::strings_told_apart);
}

/// Values are told apart, wherever they stand.
proof fn lemma_value_apart(x: Datum, y: Datum, s: Seq<char>, t: Seq<char>, strings: bool)
    requires
        strings ==> forms::strings_told_apart(),
        has_strings(x) ==> strings,
        value_text(x) + s == value_text(y) + t,
    ensures
        x == y,
        s == t,
    decreases x, 1nat, 0nat,
{
    lemma_value_start(x, s);
    lemma_value_start(y, t);
    reveal_strlit(")");
    reveal_strlit("))");
    match (x, y) {
        (Datum::Int(v), Datum::Int(w)) => {
            let (a, b) = (text::signed_decimal(v as int), text::signed_decimal(w as int));
            lemma_wrapped("Int("@, a, ")"@, s);
            lemma_wrapped("Int("@, b, ")"@, t);
            apart::lemma_strip("Int("@, a + (")"@ + s), b + (")"@ + t));
            apart::lemma_integers(v as int, w as int, ")"@ + s, ")"@ + t);
            apart::lemma_strip(")"@, s, t);
        },
        (Datum::Str(v), Datum::Str(w)) => {
            let (a, b) = (print::debug_text(v), print::debug_text(w));
            lemma_wrapped("Str("@, a, ")"@, s);
            lemma_wrapped("Str("@, b, ")"@, t);
            apart::lemma_strip("Str("@, a + (")"@ + s), b + (")"@ + t));
            lemma_strings(v, w, ")"@ + s, ")"@ + t);
            apart::lemma_strip(")"@, s, t);
        },
        (Datum::FactRef(v), Datum::FactRef(w)) => {
            let (m, n) = (v.bits() as nat, w.bits() as nat);
            let (a, b) = (text::decimal(m), text::decimal(n));
            lemma_wrapped("FactRef(FactId("@, a, "))"@, s);
            lemma_wrapped("FactRef(FactId("@, b, "))"@, t);
            apart::lemma_strip("FactRef(FactId("@, a + ("))"@ + s), b + ("))"@ + t));
            apart::lemma_decimals(m, n, "))"@ + s, "))"@ + t);
            apart::lemma_strip("))"@, s, t);
            plan::lemma_of_bits(v);
            plan::lemma_of_bits(w);
        },
        (Datum::Record(v), Datum::Record(w)) => {
            let (a, b) = (members_text(x, 0), members_text(y, 0));
            lemma_wrapped("Record(["@, a, "])"@, s);
            lemma_wrapped("Record(["@, b, "])"@, t);
            apart::lemma_strip("Record(["@, a + ("])"@ + s), b + ("])"@ + t));
            lemma_members_apart(x, y, 0, s, t);
            assert(v =~= w);
        },
        _ => {},
    }
}

proof fn lemma_members_start(x: Datum, k: nat, s: Seq<char>)
    requires
        x is Record,
    ensures
        ({
            let all = members_text(x, k) + ("])"@ + s);
            &&& all.len() > 0
            &&& k < x->Record_0.len() ==> all[0] != ']'
            &&& k >= x->Record_0.len() ==> all == "])"@ + s && all[0] == ']'
        }),
{
    reveal_strlit("(");
    reveal_strlit(", ");
    reveal_strlit("])");
    let all = members_text(x, k) + ("])"@ + s);
    if k < x->Record_0.len() {
        assert(all[0] == (if k > 0 {
            ','
        } else {
            '('
        }));
    } else {
        assert(all =~= "])"@ + s);
    }
}

/// A field of a record value, and those behind it.
proof fn lemma_member_at(x: Datum, k: nat, end: Seq<char>)
    requires
        x is Record,
        k < x->Record_0.len(),
    ensures
        members_text(x, k) + end == (between(", "@, k) + "("@) + (print::debug_text(
            x->Record_0[k as int].0,
        ) + (", "@ + (value_text(x->Record_0[k as int].1) + (")"@ + (members_text(x, k + 1)
            + end))))),
{
    let (a, b) = (print::debug_text(x->Record_0[k as int].0), value_text(x->Record_0[k as int].1));
    let (sign, rest) = (between(", "@, k), members_text(x, k + 1));
    assert(members_text(x, k) == sign + ("("@ + (a + (", "@ + (b + (")"@ + rest))))));
    assert(sign + ("("@ + (a + (", "@ + (b + (")"@ + rest))))) + end =~= (sign + "("@) + (a + (
    ", "@ + (b + (")"@ + (rest + end))))));
}

#[verifier::rlimit(30)]
proof fn lemma_members_apart(x: Datum, y: Datum, k: nat, s: Seq<char>, t: Seq<char>)
    requires
        forms::strings_told_apart(),
        x is Record,
        y is Record,
        k <= x->Record_0.len(),
        k <= y->Record_0.len(),
        members_text(x, k) + ("])"@ + s) == members_text(y, k) + ("])"@ + t),
    ensures
        x->Record_0.len() == y->Record_0.len(),
        forall|i: int| k <= i < x->Record_0.len() ==> x->Record_0[i] == #[trigger] y->Record_0[i],
        s == t,
    decreases x, 0nat, x->Record_0.len() - k,
{
    lemma_members_start(x, k, s);
    lemma_members_start(y, k, t);
    if k < x->Record_0.len() {
        let (name, inner) = x->Record_0[k as int];
        let (other, under) = y->Record_0[k as int];
        let more = members_text(x, k + 1) + ("])"@ + s);
        let rest = members_text(y, k + 1) + ("])"@ + t);
        let (a, b) = (value_text(inner) + (")"@ + more), value_text(under) + (")"@ + rest));
        let (m, n) = (print::debug_text(name), print::debug_text(other));
        let sign = between(", "@, k) + "("@;
        lemma_member_at(x, k, "])"@ + s);
        lemma_member_at(y, k, "])"@ + t);
        apart::lemma_strip(sign, m + (", "@ + a), n + (", "@ + b));
        lemma_strings(name, other, ", "@ + a, ", "@ + b);
        apart::lemma_strip(", "@, a, b);
        lemma_value_apart(inner, under, ")"@ + more, ")"@ + rest, true);
        apart::lemma_strip(")"@, more, rest);
        lemma_members_apart(x, y, k + 1, s, t);
    } else {
        apart::lemma_strip("])"@, s, t);
    }
}

/// What may stand behind a head.
spec fn ends_head(rest: Seq<char>) -> bool {
    rest.len() > 0 ==> rest[0] == ',' || rest[0] == '}'
}

/// What is read of one register, as text: a sign behind the register, and a field if it is one.
spec fn register_sign(
    program: Program,
    schema: Schema,
    head: Projection,
) -> (Address, Seq<char>) {
    match head {
        Projection::FactRef(address) => (address, "#"@),
        Projection::RegisterField { address, path, .. } => (
            address,
            "."@ + print::field_named(
                schema,
                print::register_ty(program, schema, address),
                path,
            ),
        ),
        Projection::Value { address, .. } => (address, ".value"@),
        Projection::Computed(address) => (address, "="@),
        _ => (Address(0), Seq::empty()),
    }
}

spec fn of_a_register(head: Projection) -> bool {
    head is FactRef || head is RegisterField || head is Value || head is Computed
}

proof fn lemma_registers_apart(
    a: Program,
    b: Program,
    schema: Schema,
    names: Names,
    x: Projection,
    y: Projection,
    s: Seq<char>,
    t: Seq<char>,
    strings: bool,
)
    requires
        same_registers(a, b, schema),
        of_a_register(x),
        of_a_register(y),
        head_well(a, schema, names, x, strings),
        head_well(b, schema, names, y, strings),
        ends_head(s),
        ends_head(t),
        head_text(a, schema, names, x) + s == head_text(b, schema, names, y) + t,
    ensures
        same_head(names, x, y),
        s == t,
{
    reveal_strlit("#");
    reveal_strlit("=");
    reveal_strlit(".");
    reveal_strlit(".value");
    reveal_strlit("value");
    let (m, p) = register_sign(a, schema, x);
    let (n, q) = register_sign(b, schema, y);
    assert(head_text(a, schema, names, x) + s =~= "r"@ + (text::decimal(m.0 as nat) + (p + s)));
    assert(head_text(b, schema, names, y) + t =~= "r"@ + (text::decimal(n.0 as nat) + (q + t)));
    apart::lemma_strip(
        "r"@,
        text::decimal(m.0 as nat) + (p + s),
        text::decimal(n.0 as nat) + (q + t),
    );
    assert((p + s)[0] == p[0] && (q + t)[0] == q[0]);
    apart::lemma_decimals(m.0 as nat, n.0 as nat, p + s, q + t);
    assert(m == n);
    assert(".value"@ =~= "."@ + "value"@);
    match (x, y) {
        (Projection::FactRef(_), Projection::FactRef(_)) => apart::lemma_strip("#"@, s, t),
        (Projection::Computed(_), Projection::Computed(_)) => apart::lemma_strip("="@, s, t),
        (Projection::Value { .. }, Projection::Value { .. }) => apart::lemma_strip(".value"@, s, t),
        (
            Projection::RegisterField { address, path, .. },
            Projection::RegisterField { address: other, path: way, .. },
        ) => {
            lemma_register_apart(a, b, schema, address, path, other, way, s, t);
        },
        (Projection::RegisterField { address, path, .. }, Projection::Value { .. }) => {
            lemma_not_value(schema, print::register_ty(a, schema, address), path, s, t);
            assert(p + s =~= "."@ + (print::field_named(
                schema,
                print::register_ty(a, schema, address),
                path,
            ) + s));
            assert(q + t =~= "."@ + ("value"@ + t));
            apart::lemma_strip(
                "."@,
                print::field_named(schema, print::register_ty(a, schema, address), path) + s,
                "value"@ + t,
            );
        },
        (Projection::Value { .. }, Projection::RegisterField { address, path, .. }) => {
            lemma_not_value(schema, print::register_ty(b, schema, address), path, t, s);
            assert(q + t =~= "."@ + (print::field_named(
                schema,
                print::register_ty(b, schema, address),
                path,
            ) + t));
            assert(p + s =~= "."@ + ("value"@ + s));
            apart::lemma_strip(
                "."@,
                "value"@ + s,
                print::field_named(schema, print::register_ty(b, schema, address), path) + t,
            );
        },
        _ => {},
    }
}

/// No field is named as the value side is.
proof fn lemma_not_value(
    schema: Schema,
    ty: Option<PredicateTy>,
    path: FieldPath,
    s: Seq<char>,
    t: Seq<char>,
)
    requires
        path_fits(schema, ty, path),
        ends_head(s),
        ends_head(t),
    ensures
        print::field_named(schema, ty, path) + s != "value"@ + t,
{
    reveal_strlit("value");
    reveal_strlit(".");
    lemma_words(schema, ty, path);
    let all = words(schema, ty, path);
    let first = all[0];
    assert(first.len() > 0 && apart::all_of(in_name(), first));
    let rest = joined("."@, all, 1) + s;
    lemma_joined_start(in_name(), "."@, all, 1, s);
    assert(print::field_named(schema, ty, path) + s =~= first + rest);
    assert(apart::all_of(in_name(), "value"@));
    if first + rest == "value"@ + t {
        apart::lemma_word(in_name(), first, "value"@, rest, t);
    }
}

proof fn lemma_head_start(
    program: Program,
    schema: Schema,
    names: Names,
    x: Projection,
    s: Seq<char>,
)
    ensures
        ({
            let all = head_text(program, schema, names, x) + s;
            &&& all.len() > 0
            &&& of_a_register(x) ==> all[0] == 'r'
            &&& x is Record ==> all[0] == '{'
            &&& x is Lit ==> all[0] == 'I' || all[0] == 'S' || all[0] == 'F' || all[0] == 'R'
        }),
{
    reveal_strlit("r");
    reveal_strlit("{");
    if let Projection::Lit(value) = x {
        lemma_value_start(value, s);
    }
}

/// Heads are told apart.
proof fn lemma_head_apart(
    a: Program,
    b: Program,
    schema: Schema,
    names: Names,
    x: Projection,
    y: Projection,
    s: Seq<char>,
    t: Seq<char>,
    strings: bool,
)
    requires
        same_registers(a, b, schema),
        strings ==> forms::strings_told_apart(),
        head_well(a, schema, names, x, strings),
        head_well(b, schema, names, y, strings),
        ends_head(s),
        ends_head(t),
        head_text(a, schema, names, x) + s == head_text(b, schema, names, y) + t,
    ensures
        same_head(names, x, y),
        s == t,
    decreases x, 1nat, 0nat,
{
    lemma_head_start(a, schema, names, x, s);
    lemma_head_start(b, schema, names, y, t);
    if of_a_register(x) {
        lemma_registers_apart(a, b, schema, names, x, y, s, t, strings);
    } else if let (Projection::Lit(v), Projection::Lit(w)) = (x, y) {
        lemma_value_apart(v, w, s, t, strings);
    } else if x is Record {
        let (p, q) = (
            pieces_text(a, schema, names, x, 0),
            pieces_text(b, schema, names, y, 0),
        );
        lemma_wrapped("{"@, p, "}"@, s);
        lemma_wrapped("{"@, q, "}"@, t);
        apart::lemma_strip("{"@, p + ("}"@ + s), q + ("}"@ + t));
        lemma_pieces_apart(a, b, schema, names, x, y, 0, s, t, strings);
    }
}

proof fn lemma_pieces_start(
    program: Program,
    schema: Schema,
    names: Names,
    x: Projection,
    k: nat,
    s: Seq<char>,
    strings: bool,
)
    requires
        x is Record,
        head_well(program, schema, names, x, strings),
    ensures
        ({
            let all = pieces_text(program, schema, names, x, k) + ("}"@ + s);
            &&& all.len() > 0
            &&& k > 0 ==> ends_head(all)
            &&& k < x->Record_0.len() ==> all[0] != '}'
            &&& k >= x->Record_0.len() ==> all == "}"@ + s && all[0] == '}'
        }),
{
    reveal_strlit(", ");
    reveal_strlit("}");
    let all = pieces_text(program, schema, names, x, k) + ("}"@ + s);
    if k < x->Record_0.len() {
        let name = names.shown(x->Record_0[k as int].0);
        assert(is_name(name));
        assert(in_name()(name[0]));
        assert(all[0] == (if k > 0 {
            ','
        } else {
            name[0]
        }));
    } else {
        assert(all =~= "}"@ + s);
    }
}

/// A field of a record head, and those behind it.
proof fn lemma_piece_at(
    program: Program,
    schema: Schema,
    names: Names,
    x: Projection,
    k: nat,
    end: Seq<char>,
)
    requires
        x is Record,
        k < x->Record_0.len(),
    ensures
        pieces_text(program, schema, names, x, k) + end == between(", "@, k) + (names.shown(
            x->Record_0[k as int].0,
        ) + (" = "@ + (head_text(program, schema, names, x->Record_0[k as int].1) + (pieces_text(
            program,
            schema,
            names,
            x,
            k + 1,
        ) + end)))),
{
    let (a, b) = (
        names.shown(x->Record_0[k as int].0),
        head_text(program, schema, names, x->Record_0[k as int].1),
    );
    let (sign, rest) = (between(", "@, k), pieces_text(program, schema, names, x, k + 1));
    assert(pieces_text(program, schema, names, x, k) == sign + (a + (" = "@ + (b + rest))));
    assert(sign + (a + (" = "@ + (b + rest))) + end =~= sign + (a + (" = "@ + (b + (rest + end)))));
}

#[verifier::rlimit(30)]
proof fn lemma_pieces_apart(
    a: Program,
    b: Program,
    schema: Schema,
    names: Names,
    x: Projection,
    y: Projection,
    k: nat,
    s: Seq<char>,
    t: Seq<char>,
    strings: bool,
)
    requires
        same_registers(a, b, schema),
        strings ==> forms::strings_told_apart(),
        head_well(a, schema, names, x, strings),
        head_well(b, schema, names, y, strings),
        x is Record,
        y is Record,
        k <= x->Record_0.len(),
        k <= y->Record_0.len(),
        pieces_text(a, schema, names, x, k) + ("}"@ + s) == pieces_text(b, schema, names, y, k) + (
        "}"@ + t),
    ensures
        x->Record_0.len() == y->Record_0.len(),
        forall|i: int|
            k <= i < x->Record_0.len() ==> names.shown((#[trigger] x->Record_0[i]).0)
                == names.shown(y->Record_0[i].0) && same_head(
                names,
                x->Record_0[i].1,
                y->Record_0[i].1,
            ),
        s == t,
    decreases x, 0nat, x->Record_0.len() - k,
{
    lemma_pieces_start(a, schema, names, x, k, s, strings);
    lemma_pieces_start(b, schema, names, y, k, t, strings);
    if k < x->Record_0.len() {
        reveal_strlit(" = ");
        let (one, inner) = x->Record_0[k as int];
        let (two, under) = y->Record_0[k as int];
        let (m, n) = (names.shown(one), names.shown(two));
        assert(is_name(m) && is_name(n));
        let more = pieces_text(a, schema, names, x, k + 1) + ("}"@ + s);
        let rest = pieces_text(b, schema, names, y, k + 1) + ("}"@ + t);
        let (p, q) = (
            head_text(a, schema, names, inner) + more,
            head_text(b, schema, names, under) + rest,
        );
        let sign = between(", "@, k);
        lemma_piece_at(a, schema, names, x, k, "}"@ + s);
        lemma_piece_at(b, schema, names, y, k, "}"@ + t);
        apart::lemma_strip(sign, m + (" = "@ + p), n + (" = "@ + q));
        apart::lemma_word(in_name(), m, n, " = "@ + p, " = "@ + q);
        apart::lemma_strip(" = "@, p, q);
        lemma_pieces_start(a, schema, names, x, k + 1, s, strings);
        lemma_pieces_start(b, schema, names, y, k + 1, t, strings);
        lemma_head_apart(a, b, schema, names, inner, under, more, rest, strings);
        lemma_pieces_apart(a, b, schema, names, x, y, k + 1, s, t, strings);
    } else {
        apart::lemma_strip("}"@, s, t);
    }
}

} // verus!
