//! The text of values: how a value or an expression is written out.
use vstd::prelude::*;
use crate::eval::joined;
use crate::ids::{Id, IdView, Record, RecordView};
use crate::names::{Direction, Operator};
use crate::value::{
    Expression, Model, Part, PartView, Value, entry_models, lemma_entry_models, lemma_models,
    models, part_views,
};

verus! {

/// The text of a UUID in its hyphenated form, as the uuid crate writes it.
pub uninterp spec fn uuid_text(bits: u128) -> Seq<char>;

/// Relies on uuid::Uuid::from_u128 and the Display of its hyphenated form:
/// the text depends on the 128 bits alone.
#[verifier::external_body]
fn uuid_hyphenated(bits: u128) -> (r: String)
    ensures
        r@ == uuid_text(bits),
{
    uuid::Uuid::from_u128(bits).hyphenated().to_string()
}

/// Relies on String::push: the character is appended at the end.
#[verifier::external_body]
fn push_char(s: &mut String, c: char)
    ensures
        final(s)@ == old(s)@.push(c),
{
    s.push(c)
}

/// Appends a text.
fn append(out: &mut String, s: &str)
    ensures
        final(out)@ == old(out)@ + s@,
{
    let t = joined(out.as_str(), s);
    *out = t;
}

pub open spec fn digit_char(d: int) -> char {
    if d == 0 {
        '0'
    } else if d == 1 {
        '1'
    } else if d == 2 {
        '2'
    } else if d == 3 {
        '3'
    } else if d == 4 {
        '4'
    } else if d == 5 {
        '5'
    } else if d == 6 {
        '6'
    } else if d == 7 {
        '7'
    } else if d == 8 {
        '8'
    } else {
        '9'
    }
}

/// The decimal digits of a natural number.
pub open spec fn digits_of(n: nat) -> Seq<char>
    decreases n,
{
    if n < 10 {
        seq![digit_char(n as int)]
    } else {
        digits_of(n / 10) + seq![digit_char((n % 10) as int)]
    }
}

/// The decimal text of an integer, with a leading `-` when it is negative.
pub open spec fn decimal_of(n: int) -> Seq<char> {
    if n < 0 {
        seq!['-'] + digits_of((-n) as nat)
    } else {
        digits_of(n as nat)
    }
}

pub open spec fn id_text(id: IdView) -> Seq<char> {
    match id {
        IdView::Number(n) => decimal_of(n),
        IdView::String(s) => s,
        IdView::Uuid(u) => uuid_text(u),
    }
}

pub open spec fn record_text(r: RecordView) -> Seq<char> {
    r.table + seq![':'] + id_text(r.id)
}

pub open spec fn op_text(op: Operator) -> Seq<char> {
    match op {
        Operator::Neg => seq!['-'],
        Operator::Not => seq!['!'],
        Operator::Or => seq!['O', 'R'],
        Operator::And => seq!['A', 'N', 'D'],
        Operator::Add => seq!['+'],
        Operator::Sub => seq!['-'],
        Operator::Mult => seq!['*'],
        Operator::Div => seq!['/'],
        Operator::Eq => seq!['='],
        Operator::NtEq => seq!['!', '='],
        Operator::Lt => seq!['<'],
        Operator::Gt => seq!['>'],
        Operator::LtEq => seq!['<', '='],
        Operator::GtEq => seq!['>', '='],
    }
}

pub open spec fn dir_text(d: Direction) -> Seq<char> {
    match d {
        Direction::In => seq!['-', '>'],
        Direction::Out => seq!['<', '-'],
        Direction::Both => seq!['<', '-', '>'],
    }
}

/// The text of a path: field names and `*` joined by dots, `[0]`, `[$]`
/// and `[i]` appended for the first, the last and the i-th item.
pub open spec fn path_text(parts: Seq<PartView>) -> Seq<char>
    decreases parts.len(),
{
    if parts.len() == 0 {
        Seq::empty()
    } else {
        let p = path_text(parts.drop_last());
        match parts.last() {
            PartView::Field(f) => if p.len() == 0 {
                f
            } else {
                p + seq!['.'] + f
            },
            PartView::All => if p.len() == 0 {
                seq!['*']
            } else {
                p + seq!['.', '*']
            },
            PartView::First => p + seq!['[', '0', ']'],
            PartView::Last => p + seq!['[', '$', ']'],
            PartView::Index(i) => p + seq!['['] + decimal_of(i) + seq![']'],
        }
    }
}

/// The text of a value: `NONE`, `NULL`, numbers in decimal, strings as they
/// are, `true`/`false`, records as `table:id`, UUIDs as `u` and their
/// hyphenated form, lists as `[a,b]`, objects as `{k: v, l: w}`, paths as
/// `path_text` gives, expressions with their operators, edge patterns as
/// record, direction and table, tables by name.
pub open spec fn text_of(m: Model) -> Seq<char>
    decreases m,
{
    match m {
        Model::Nothing => seq!['N', 'O', 'N', 'E'],
        Model::Null => seq!['N', 'U', 'L', 'L'],
        Model::Record(r) => record_text(r),
        Model::Uuid(u) => seq!['u'] + uuid_text(u),
        Model::Number(n) => decimal_of(n),
        Model::String(s) => s,
        Model::Bool(b) => if b {
            seq!['t', 'r', 'u', 'e']
        } else {
            seq!['f', 'a', 'l', 's', 'e']
        },
        Model::Array(items) => seq!['['] + list_text(items) + seq![']'],
        Model::Object(entries) => seq!['{'] + entries_text(entries) + seq!['}'],
        Model::Idiom(parts) => path_text(parts),
        Model::Unary(op, e) => op_text(op) + text_of(*e),
        Model::Binary(l, op, r) => text_of(*l) + seq![' '] + op_text(op) + seq![' '] + text_of(*r),
        Model::Edge(d, from, to) => record_text(from) + dir_text(d) + to,
        Model::Table(t) => t,
    }
}

/// The texts of the items, separated by commas.
pub open spec fn list_text(items: Seq<Model>) -> Seq<char>
    decreases items,
{
    if items.len() == 0 {
        Seq::empty()
    } else if items.len() == 1 {
        text_of(items[0])
    } else {
        list_text(items.drop_last()) + seq![','] + text_of(items.last())
    }
}

/// The entries as `name: text`, separated by `, `.
pub open spec fn entries_text(entries: Seq<(Seq<char>, Model)>) -> Seq<char>
    decreases entries,
{
    if entries.len() == 0 {
        Seq::empty()
    } else if entries.len() == 1 {
        entries[0].0 + seq![':', ' '] + text_of(entries[0].1)
    } else {
        entries_text(entries.drop_last()) + seq![',', ' '] + entries.last().0 + seq![':', ' ']
            + text_of(entries.last().1)
    }
}

fn digit(d: u64) -> (c: char)
    requires
        d < 10,
    ensures
        c == digit_char(d as int),
{
    if d == 0 {
        '0'
    } else if d == 1 {
        '1'
    } else if d == 2 {
        '2'
    } else if d == 3 {
        '3'
    } else if d == 4 {
        '4'
    } else if d == 5 {
        '5'
    } else if d == 6 {
        '6'
    } else if d == 7 {
        '7'
    } else if d == 8 {
        '8'
    } else {
        '9'
    }
}

fn write_digits(n: u64, out: &mut String)
    ensures
        final(out)@ == old(out)@ + digits_of(n as nat),
    decreases n,
{
    let ghost start = out@;
    if n >= 10 {
        write_digits(n / 10, out);
    }
    push_char(out, digit(n % 10));
    proof {
        if n >= 10 {
            assert(out@ =~= start + (digits_of((n / 10) as nat) + seq![digit_char((n % 10) as int)]));
        } else {
            assert(out@ =~= start + digits_of(n as nat));
        }
    }
}

/// Appends the decimal text of an integer.
pub fn write_decimal(n: i64, out: &mut String)
    ensures
        final(out)@ == old(out)@ + decimal_of(n as int),
{
    let ghost start = out@;
    if n < 0 {
        push_char(out, '-');
        let m: u64 = (0i128 - (n as i128)) as u64;
        write_digits(m, out);
        assert(out@ =~= start + (seq!['-'] + digits_of((-(n as int)) as nat)));
    } else {
        write_digits(n as u64, out);
    }
}

/// Appends a literal text.
fn write_lit(out: &mut String, s: &str, Ghost(v): Ghost<Seq<char>>)
    requires
        s@ =~= v,
    ensures
        final(out)@ == old(out)@ + v,
{
    append(out, s);
}

fn write_id(id: &Id, out: &mut String)
    ensures
        final(out)@ == old(out)@ + id_text(id@),
{
    match id {
        Id::Number(n) => write_decimal(*n, out),
        Id::String(s) => append(out, s.as_str()),
        Id::Uuid(u) => {
            let t = uuid_hyphenated(u.0);
            append(out, t.as_str());
        },
    }
}

fn write_record(r: &Record, out: &mut String)
    ensures
        final(out)@ == old(out)@ + record_text(r@),
{
    let ghost start = out@;
    append(out, r.table.as_str());
    push_char(out, ':');
    write_id(&r.id, out);
    assert(out@ =~= start + record_text(r@));
}

fn write_op(op: Operator, out: &mut String)
    ensures
        final(out)@ == old(out)@ + op_text(op),
{
    proof {
        reveal_strlit("-");
        reveal_strlit("!");
        reveal_strlit("OR");
        reveal_strlit("AND");
        reveal_strlit("+");
        reveal_strlit("*");
        reveal_strlit("/");
        reveal_strlit("=");
        reveal_strlit("!=");
        reveal_strlit("<");
        reveal_strlit(">");
        reveal_strlit("<=");
        reveal_strlit(">=");
    }
    match op {
        Operator::Neg => write_lit(out, "-", Ghost(op_text(op))),
        Operator::Not => write_lit(out, "!", Ghost(op_text(op))),
        Operator::Or => write_lit(out, "OR", Ghost(op_text(op))),
        Operator::And => write_lit(out, "AND", Ghost(op_text(op))),
        Operator::Add => write_lit(out, "+", Ghost(op_text(op))),
        Operator::Sub => write_lit(out, "-", Ghost(op_text(op))),
        Operator::Mult => write_lit(out, "*", Ghost(op_text(op))),
        Operator::Div => write_lit(out, "/", Ghost(op_text(op))),
        Operator::Eq => write_lit(out, "=", Ghost(op_text(op))),
        Operator::NtEq => write_lit(out, "!=", Ghost(op_text(op))),
        Operator::Lt => write_lit(out, "<", Ghost(op_text(op))),
        Operator::Gt => write_lit(out, ">", Ghost(op_text(op))),
        Operator::LtEq => write_lit(out, "<=", Ghost(op_text(op))),
        Operator::GtEq => write_lit(out, ">=", Ghost(op_text(op))),
    }
}

fn write_dir(d: Direction, out: &mut String)
    ensures
        final(out)@ == old(out)@ + dir_text(d),
{
    proof {
        reveal_strlit("->");
        reveal_strlit("<-");
        reveal_strlit("<->");
    }
    match d {
        Direction::In => write_lit(out, "->", Ghost(dir_text(d))),
        Direction::Out => write_lit(out, "<-", Ghost(dir_text(d))),
        Direction::Both => write_lit(out, "<->", Ghost(dir_text(d))),
    }
}

/// The text of a path.
pub fn path_string(parts: &Vec<Part>) -> (r: String)
    ensures
        r@ == path_text(part_views(parts@)),
{
    let mut acc = String::new();
    let mut i: usize = 0;
    while i < parts.len()
        invariant
            i <= parts.len(),
            acc@ == path_text(part_views(parts@).take(i as int)),
        decreases parts.len() - i,
    {
        let ghost pv = part_views(parts@);
        let ghost p = acc@;
        assert(pv.take(i + 1).drop_last() =~= pv.take(i as int));
        assert(pv.take(i + 1).last() == parts@[i as int]@);
        let empty = acc.as_str().is_empty();
        match &parts[i] {
            Part::Field(f) => {
                if !empty {
                    push_char(&mut acc, '.');
                }
                append(&mut acc, f.0.as_str());
                assert(acc@ =~= (if p.len() == 0 { f@ } else { p + seq!['.'] + f@ }));
            },
            Part::All => {
                if !empty {
                    push_char(&mut acc, '.');
                }
                push_char(&mut acc, '*');
                assert(acc@ =~= (if p.len() == 0 { seq!['*'] } else { p + seq!['.', '*'] }));
            },
            Part::First => {
                push_char(&mut acc, '[');
                push_char(&mut acc, '0');
                push_char(&mut acc, ']');
                assert(acc@ =~= p + seq!['[', '0', ']']);
            },
            Part::Last => {
                push_char(&mut acc, '[');
                push_char(&mut acc, '$');
                push_char(&mut acc, ']');
                assert(acc@ =~= p + seq!['[', '$', ']']);
            },
            Part::Index(n) => {
                push_char(&mut acc, '[');
                write_decimal(*n, &mut acc);
                push_char(&mut acc, ']');
                assert(acc@ =~= p + seq!['['] + decimal_of(*n as int) + seq![']']);
            },
        }
        i = i + 1;
    }
    assert(part_views(parts@).take(parts@.len() as int) =~= part_views(parts@));
    acc
}

/// Appends the text of a value.
pub fn write_text(v: &Value, out: &mut String)
    ensures
        final(out)@ == old(out)@ + text_of(v@),
    decreases v,
{
    let ghost start = out@;
    proof {
        reveal_strlit("NONE");
        reveal_strlit("NULL");
        reveal_strlit("true");
        reveal_strlit("false");
    }
    match v {
        Value::Nothing => write_lit(out, "NONE", Ghost(text_of(v@))),
        Value::Null => write_lit(out, "NULL", Ghost(text_of(v@))),
        Value::Record(r) => write_record(r, out),
        Value::Uuid(u) => {
            push_char(out, 'u');
            let t = uuid_hyphenated(u.0);
            append(out, t.as_str());
            assert(out@ =~= start + text_of(v@));
        },
        Value::Number(n) => write_decimal(*n, out),
        Value::String(s) => append(out, s.0.as_str()),
        Value::Bool(b) => {
            if *b {
                write_lit(out, "true", Ghost(text_of(v@)));
            } else {
                write_lit(out, "false", Ghost(text_of(v@)));
            }
        },
        Value::Array(items) => {
            let ghost ms = models(items@);
            proof {
                lemma_models(items@);
            }
            push_char(out, '[');
            let mut k: usize = 0;
            assert(ms.take(0) =~= Seq::<Model>::empty());
            while k < items.len()
                invariant
                    *v == Value::Array(*items),
                    k <= items.len(),
                    ms == models(items@),
                    ms.len() == items@.len(),
                    forall|j: int| 0 <= j < ms.len() ==> #[trigger] ms[j] == items@[j]@,
                    out@ == start + seq!['['] + list_text(ms.take(k as int)),
                decreases items.len() - k,
            {
                proof {
                    vstd::std_specs::vec::axiom_vec_index_decreases(*items, k as int);
                    assert(decreases_to!(*v => v->Array_0));
                    assert(decreases_to!(*items => items[k as int]));
                    assert(ms.take(k + 1).drop_last() =~= ms.take(k as int));
                    assert(ms.take(k + 1).last() == items@[k as int]@);
                }
                let ghost before = out@;
                if k > 0 {
                    push_char(out, ',');
                }
                write_text(&items[k], out);
                proof {
                    if k == 0 {
                        assert(ms.take(1)[0] == items@[0]@);
                        assert(out@ =~= start + seq!['['] + list_text(ms.take(1)));
                    } else {
                        assert(out@ =~= start + seq!['['] + list_text(ms.take(k + 1)));
                    }
                }
                k = k + 1;
            }
            push_char(out, ']');
            assert(ms.take(ms.len() as int) =~= ms);
            assert(out@ =~= start + text_of(v@));
        },
        Value::Object(entries) => {
            let ghost es = entry_models(entries@);
            proof {
                lemma_entry_models(entries@);
            }
            push_char(out, '{');
            let mut k: usize = 0;
            assert(es.take(0) =~= Seq::<(Seq<char>, Model)>::empty());
            while k < entries.len()
                invariant
                    *v == Value::Object(*entries),
                    k <= entries.len(),
                    es == entry_models(entries@),
                    es.len() == entries@.len(),
                    forall|j: int| 0 <= j < es.len() ==> #[trigger] es[j] == (entries@[j].0@, entries@[j].1@),
                    out@ == start + seq!['{'] + entries_text(es.take(k as int)),
                decreases entries.len() - k,
            {
                proof {
                    vstd::std_specs::vec::axiom_vec_index_decreases(*entries, k as int);
                    assert(decreases_to!(*v => v->Object_0));
                    assert(decreases_to!(*entries => entries[k as int]));
                    assert(decreases_to!(entries[k as int] => entries[k as int].1));
                    assert(es.take(k + 1).drop_last() =~= es.take(k as int));
                    assert(es.take(k + 1).last() == (entries@[k as int].0@, entries@[k as int].1@));
                }
                if k > 0 {
                    push_char(out, ',');
                    push_char(out, ' ');
                }
                append(out, entries[k].0.as_str());
                push_char(out, ':');
                push_char(out, ' ');
                write_text(&entries[k].1, out);
                proof {
                    if k == 0 {
                        assert(es.take(1)[0] == es[0]);
                        assert(out@ =~= start + seq!['{'] + entries_text(es.take(1)));
                    } else {
                        assert(out@ =~= start + seq!['{'] + entries_text(es.take(k + 1)));
                    }
                }
                k = k + 1;
            }
            push_char(out, '}');
            assert(es.take(es.len() as int) =~= es);
            assert(out@ =~= start + text_of(v@));
        },
        Value::Idiom(idiom) => {
            let t = path_string(&idiom.0);
            append(out, t.as_str());
        },
        Value::Expression(e) => match &**e {
            Expression::Unary { op, expr } => {
                write_op(*op, out);
                write_text(expr, out);
                assert(out@ =~= start + text_of(v@));
            },
            Expression::Binary { left, op, right } => {
                write_text(left, out);
                push_char(out, ' ');
                write_op(*op, out);
                push_char(out, ' ');
                write_text(right, out);
                assert(out@ =~= start + text_of(v@));
            },
        },
        Value::Edge(e) => {
            write_record(&e.from, out);
            write_dir(e.dir, out);
            append(out, e.to.0.as_str());
            assert(out@ =~= start + text_of(v@));
        },
        Value::Table(t) => append(out, t.0.as_str()),
    }
}

impl Value {
    /// The text of the value.
    pub fn to_text(&self) -> (r: String)
        ensures
            r@ == text_of(self@),
    {
        let mut out = String::new();
        write_text(self, &mut out);
        assert(out@ =~= text_of(self@));
        out
    }
}

} // verus!
