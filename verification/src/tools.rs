//! Text processing of the command-line tools: splitting a command line,
//! reading workload files, and printing query results deterministically.

use vstd::prelude::*;
use vstd::utf8::*;
use crate::communication::node_id::{precedes, lemma_byte_order_antisym};
use crate::text::{
    is_ws, is_whitespace, trim, lines_of, decimal, to_chars, string_of, trim_bounds, line_bounds,
    push_char, push_decimal,
};

verus! {

// ---------------------------------------------------------------------------
// Command lines
// ---------------------------------------------------------------------------

/// State while splitting a command line: the finished arguments, the one
/// being read, and whether a double quote is open.
pub type CliState = (Seq<Seq<char>>, Seq<char>, bool);

/// One character of a command line: a double quote toggles quoting, white
/// space outside quotes ends the current argument, anything else is part of
/// it.
pub open spec fn cli_step(st: CliState, c: char) -> CliState {
    if c == '"' {
        (st.0, st.1, !st.2)
    } else if is_ws(c) && !st.2 {
        if st.1.len() > 0 {
            (st.0.push(st.1), seq![], st.2)
        } else {
            st
        }
    } else {
        (st.0, st.1.push(c), st.2)
    }
}

/// The state after reading a whole line.
pub open spec fn cli_run(s: Seq<char>) -> CliState
    decreases s.len(),
{
    if s.len() == 0 {
        (seq![], seq![], false)
    } else {
        cli_step(cli_run(s.drop_last()), s.last())
    }
}

/// The arguments of a command line.
pub open spec fn cli_args(s: Seq<char>) -> Seq<Seq<char>> {
    let st = cli_run(s);
    if st.1.len() > 0 {
        st.0.push(st.1)
    } else {
        st.0
    }
}

/// `str::split_whitespace` as a scan: the finished words and the one being
/// read; white space ends a word, any other character extends it.
pub open spec fn ws_run(s: Seq<char>) -> (Seq<Seq<char>>, Seq<char>)
    decreases s.len(),
{
    if s.len() == 0 {
        (seq![], seq![])
    } else {
        let st = ws_run(s.drop_last());
        let c = s.last();
        if is_ws(c) {
            if st.1.len() > 0 {
                (st.0.push(st.1), seq![])
            } else {
                st
            }
        } else {
            (st.0, st.1.push(c))
        }
    }
}

/// The words of a text as `str::split_whitespace` gives them.
pub open spec fn ws_words(s: Seq<char>) -> Seq<Seq<char>> {
    let st = ws_run(s);
    if st.1.len() > 0 {
        st.0.push(st.1)
    } else {
        st.0
    }
}

proof fn lemma_cli_run_unquoted(s: Seq<char>)
    requires
        !s.contains('"'),
    ensures
        cli_run(s) == (ws_run(s).0, ws_run(s).1, false),
        forall|i: int| 0 <= i < ws_run(s).0.len() ==> (#[trigger] ws_run(s).0[i]).len() > 0,
        forall|i: int, j: int|
            0 <= i < ws_run(s).0.len() && 0 <= j < ws_run(s).0[i].len() ==> !is_ws(
                #[trigger] ws_run(s).0[i][j],
            ),
        forall|j: int| 0 <= j < ws_run(s).1.len() ==> !is_ws(#[trigger] ws_run(s).1[j]),
    decreases s.len(),
{
    if s.len() > 0 {
        let t = s.drop_last();
        assert(!t.contains('"')) by {
            if t.contains('"') {
                let k = choose|k: int| 0 <= k < t.len() && t[k] == '"';
                assert(s[k] == '"');
            }
        }
        assert(s.last() != '"') by {
            assert(s[s.len() - 1] == s.last());
        }
        lemma_cli_run_unquoted(t);
    }
}

/// On a line without double quotes, the command-line split is the split at
/// white space (`str::split_whitespace`): non-empty words with no white
/// space in them.
pub proof fn lemma_split_unquoted(s: Seq<char>)
    requires
        !s.contains('"'),
    ensures
        cli_args(s) == ws_words(s),
        forall|i: int| 0 <= i < ws_words(s).len() ==> (#[trigger] ws_words(s)[i]).len() > 0,
        forall|i: int, j: int|
            0 <= i < ws_words(s).len() && 0 <= j < ws_words(s)[i].len() ==> !is_ws(
                #[trigger] ws_words(s)[i][j],
            ),
{
    lemma_cli_run_unquoted(s);
    let st = ws_run(s);
    assert forall|i: int| 0 <= i < ws_words(s).len() implies (#[trigger] ws_words(s)[i]).len()
        > 0 by {
        if i < st.0.len() {
            assert(ws_words(s)[i] == st.0[i]);
        }
    }
    assert forall|i: int, j: int|
        0 <= i < ws_words(s).len() && 0 <= j < ws_words(s)[i].len() implies !is_ws(
        #[trigger] ws_words(s)[i][j],
    ) by {
        if i < st.0.len() {
            assert(ws_words(s)[i] == st.0[i]);
        } else {
            assert(ws_words(s)[i] == st.1);
        }
    }
}

/// The texts of a sequence of strings.
pub open spec fn texts(v: Seq<String>) -> Seq<Seq<char>> {
    v.map_values(|x: String| x@)
}

/// Split a CLI line into whitespace-delimited tokens, but keep quoted
/// strings intact. Only double quotes are supported and there is no
/// escaping; an unterminated quote runs to the end of the line.
pub fn split_cli_args(line: &str) -> (r: Vec<String>)
    ensures
        texts(r@) == cli_args(line@),
{
    let cs = to_chars(line);
    let mut out: Vec<String> = Vec::new();
    let mut cur = String::new();
    let mut in_quotes = false;
    let mut i: usize = 0;
    assert(cs@.take(0) =~= Seq::<char>::empty());
    while i < cs.len()
        invariant
            0 <= i <= cs@.len(),
            cs@ == line@,
            texts(out@) == cli_run(cs@.take(i as int)).0,
            cur@ == cli_run(cs@.take(i as int)).1,
            in_quotes == cli_run(cs@.take(i as int)).2,
        decreases cs.len() - i,
    {
        let ch = cs[i];
        assert(cs@.take(i + 1).drop_last() =~= cs@.take(i as int));
        assert(cs@.take(i + 1).last() == ch);
        if ch == '"' {
            in_quotes = !in_quotes;
        } else if is_whitespace(ch) && !in_quotes {
            if cur.as_str().unicode_len() > 0 {
                let ghost before = out@;
                out.push(cur);
                assert(texts(out@) =~= texts(before).push(cli_run(cs@.take(i as int)).1));
                cur = String::new();
                assert(cur@ =~= Seq::<char>::empty());
            }
        } else {
            push_char(&mut cur, ch);
        }
        i = i + 1;
    }
    assert(cs@.take(cs@.len() as int) =~= cs@);
    if cur.as_str().unicode_len() > 0 {
        let ghost before = out@;
        out.push(cur);
        assert(texts(out@) =~= texts(before).push(cli_run(cs@).1));
    }
    out
}

// ---------------------------------------------------------------------------
// Workload files
// ---------------------------------------------------------------------------

/// The trimmed non-blank lines of a text.
pub open spec fn trimmed_lines(s: Seq<char>) -> Seq<Seq<char>> {
    lines_of(s).map_values(|l: Seq<char>| trim(l)).filter(|t: Seq<char>| t.len() > 0)
}

/// The keys of a key file: one per line, trimmed, blank lines skipped.
pub fn keys_from_text(contents: &str) -> (r: Vec<String>)
    ensures
        texts(r@) == trimmed_lines(contents@),
{
    let cs = to_chars(contents);
    let bounds = line_bounds(&cs);
    let ghost lines = lines_of(cs@);
    let ghost trimmed = lines.map_values(|l: Seq<char>| trim(l));
    let ghost keep = |t: Seq<char>| t.len() > 0;
    let mut r: Vec<String> = Vec::new();
    let mut i: usize = 0;
    while i < bounds.len()
        invariant
            0 <= i <= bounds@.len(),
            cs@ == contents@,
            lines == lines_of(cs@),
            bounds@.len() == lines.len(),
            trimmed == lines.map_values(|l: Seq<char>| trim(l)),
            keep == (|t: Seq<char>| t.len() > 0),
            forall|j: int|
                0 <= j < bounds@.len() ==> (#[trigger] bounds@[j]).0 <= bounds@[j].1 <= cs@.len()
                    && cs@.subrange(bounds@[j].0 as int, bounds@[j].1 as int) == lines[j],
            texts(r@) == trimmed.take(i as int).filter(keep),
        decreases bounds.len() - i,
    {
        reveal_with_fuel(Seq::<_>::filter, 1);
        let (a, b) = trim_bounds(&cs, bounds[i].0, bounds[i].1);
        assert(trimmed[i as int] == trim(lines[i as int]));
        assert(trimmed.take(i + 1).drop_last() =~= trimmed.take(i as int));
        if a < b {
            let ghost before = r@;
            r.push(string_of(&cs, a, b));
            assert(texts(r@) =~= texts(before).push(cs@.subrange(a as int, b as int)));
        }
        i = i + 1;
    }
    assert(trimmed.take(bounds@.len() as int) =~= trimmed);
    r
}

/// The pieces of a text between commas (`str::split(',')`), read one
/// character at a time: the finished pieces and the current one.
pub open spec fn comma_run(s: Seq<char>) -> (Seq<Seq<char>>, Seq<char>)
    decreases s.len(),
{
    if s.len() == 0 {
        (seq![], seq![])
    } else {
        let st = comma_run(s.drop_last());
        if s.last() == ',' {
            (st.0.push(st.1), seq![])
        } else {
            (st.0, st.1.push(s.last()))
        }
    }
}

/// The comma-separated fields of a text, each trimmed. There is always at
/// least one.
pub open spec fn fields(s: Seq<char>) -> Seq<Seq<char>> {
    let st = comma_run(s);
    st.0.push(st.1).map_values(|f: Seq<char>| trim(f))
}

/// An operation of a requests file, as text.
pub enum OpSpec {
    Insert(Seq<char>, Seq<char>),
    Query(Seq<char>),
}

/// A refusal of a requests file, as text: the line number and the line.
pub enum RequestsErrorSpec {
    InvalidInsert(nat, Seq<char>),
    InvalidQuery(nat, Seq<char>),
    UnknownOperation(Seq<char>, nat, Seq<char>),
}

/// `insert`
pub open spec fn insert_word() -> Seq<char> {
    seq!['i', 'n', 's', 'e', 'r', 't']
}

/// `query`
pub open spec fn query_word() -> Seq<char> {
    seq!['q', 'u', 'e', 'r', 'y']
}

/// One line of a requests file: nothing for a blank line, else an
/// operation or a refusal.
pub open spec fn parse_line(line: Seq<char>, line_no: nat) -> Option<
    Result<OpSpec, RequestsErrorSpec>,
> {
    let t = trim(line);
    if t.len() == 0 {
        None
    } else {
        let parts = fields(t);
        let op = parts[0];
        if op == insert_word() {
            if parts.len() < 3 {
                Some(Err(RequestsErrorSpec::InvalidInsert(line_no, line)))
            } else {
                Some(Ok(OpSpec::Insert(parts[1], parts[2])))
            }
        } else if op == query_word() {
            if parts.len() < 2 {
                Some(Err(RequestsErrorSpec::InvalidQuery(line_no, line)))
            } else {
                Some(Ok(OpSpec::Query(parts[1])))
            }
        } else {
            Some(Err(RequestsErrorSpec::UnknownOperation(op, line_no, line)))
        }
    }
}

/// The operations of the lines from `i` on (line numbers count from 1),
/// or the first refusal.
pub open spec fn parse_from(lines: Seq<Seq<char>>, i: int) -> Result<
    Seq<OpSpec>,
    RequestsErrorSpec,
>
    decreases lines.len() - i,
{
    if i < 0 || i >= lines.len() {
        Ok(seq![])
    } else {
        match parse_line(lines[i], (i + 1) as nat) {
            None => parse_from(lines, i + 1),
            Some(Err(e)) => Err(e),
            Some(Ok(op)) => match parse_from(lines, i + 1) {
                Ok(ops) => Ok(seq![op] + ops),
                Err(e) => Err(e),
            },
        }
    }
}

/// An operation of a requests file.
#[derive(Debug, Clone, PartialEq, Eq)]
pub enum Op {
    Insert { key: String, value: String },
    Query { key: String },
}

/// A requests file that cannot be read.
#[derive(Debug, Clone, PartialEq, Eq)]
pub enum RequestsError {
    /// An `insert` line without key and value
    InvalidInsert { line_no: usize, line: String },
    /// A `query` line without key
    InvalidQuery { line_no: usize, line: String },
    /// A line with another operation
    UnknownOperation { op: String, line_no: usize, line: String },
}

/// The text form of an operation.
pub open spec fn op_view(op: Op) -> OpSpec {
    match op {
        Op::Insert { key, value } => OpSpec::Insert(key@, value@),
        Op::Query { key } => OpSpec::Query(key@),
    }
}

/// The text form of a refusal.
pub open spec fn error_view(e: RequestsError) -> RequestsErrorSpec {
    match e {
        RequestsError::InvalidInsert { line_no, line } => RequestsErrorSpec::InvalidInsert(
            line_no as nat,
            line@,
        ),
        RequestsError::InvalidQuery { line_no, line } => RequestsErrorSpec::InvalidQuery(
            line_no as nat,
            line@,
        ),
        RequestsError::UnknownOperation { op, line_no, line } => RequestsErrorSpec::UnknownOperation(
            op@,
            line_no as nat,
            line@,
        ),
    }
}

/// The message of a refusal: which line, what was expected, and the line.
pub open spec fn error_text(e: RequestsErrorSpec) -> Seq<char> {
    match e {
        RequestsErrorSpec::InvalidInsert(n, line) => "Invalid insert at line "@ + decimal(n)
            + ": expected 'insert, <key>, <value>', got: "@ + line,
        RequestsErrorSpec::InvalidQuery(n, line) => "Invalid query at line "@ + decimal(n)
            + ": expected 'query, <key>', got: "@ + line,
        RequestsErrorSpec::UnknownOperation(op, n, line) => "Unknown operation '"@ + op
            + "' at line "@ + decimal(n) + ": "@ + line,
    }
}

impl RequestsError {
    /// The message of the refusal.
    pub fn message(&self) -> (r: String)
        ensures
            r@ == error_text(error_view(*self)),
    {
        match self {
            RequestsError::InvalidInsert { line_no, line } => {
                let mut s = String::from_str("Invalid insert at line ");
                push_decimal(&mut s, *line_no as u64);
                s.append(": expected 'insert, <key>, <value>', got: ");
                s.append(line.as_str());
                s
            },
            RequestsError::InvalidQuery { line_no, line } => {
                let mut s = String::from_str("Invalid query at line ");
                push_decimal(&mut s, *line_no as u64);
                s.append(": expected 'query, <key>', got: ");
                s.append(line.as_str());
                s
            },
            RequestsError::UnknownOperation { op, line_no, line } => {
                let mut s = String::from_str("Unknown operation '");
                s.append(op.as_str());
                s.append("' at line ");
                push_decimal(&mut s, *line_no as u64);
                s.append(": ");
                s.append(line.as_str());
                s
            },
        }
    }
}

/// Trimmed comma-separated fields of `v[from..to]`.
fn split_fields(v: &Vec<char>, from: usize, to: usize) -> (r: Vec<String>)
    requires
        from <= to <= v@.len(),
    ensures
        texts(r@) == fields(v@.subrange(from as int, to as int)),
{
    let ghost s = v@.subrange(from as int, to as int);
    let mut pieces: Vec<(usize, usize)> = Vec::new();
    let mut start = from;
    let mut i = from;
    assert(s.take(0) =~= Seq::<char>::empty());
    while i < to
        invariant
            from <= start <= i <= to <= v@.len(),
            s == v@.subrange(from as int, to as int),
            pieces@.len() == comma_run(s.take(i - from)).0.len(),
            forall|j: int|
                0 <= j < pieces@.len() ==> (#[trigger] pieces@[j]).0 <= pieces@[j].1 <= v@.len()
                    && v@.subrange(pieces@[j].0 as int, pieces@[j].1 as int) == comma_run(
                    s.take(i - from),
                ).0[j],
            v@.subrange(start as int, i as int) == comma_run(s.take(i - from)).1,
        decreases to - i,
    {
        let ghost st = comma_run(s.take(i - from));
        assert(s.take(i + 1 - from).drop_last() =~= s.take(i - from));
        assert(s.take(i + 1 - from).last() == v@[i as int]);
        if v[i] == ',' {
            pieces.push((start, i));
            start = i + 1;
            assert(v@.subrange(start as int, i + 1) =~= Seq::<char>::empty());
        } else {
            assert(v@.subrange(start as int, i + 1) =~= st.1.push(v@[i as int]));
        }
        i = i + 1;
    }
    assert(s.take(to - from) =~= s);
    pieces.push((start, to));
    let mut r: Vec<String> = Vec::new();
    let mut j: usize = 0;
    let ghost all = comma_run(s).0.push(comma_run(s).1);
    while j < pieces.len()
        invariant
            0 <= j <= pieces@.len(),
            pieces@.len() == all.len(),
            forall|k: int|
                0 <= k < pieces@.len() ==> (#[trigger] pieces@[k]).0 <= pieces@[k].1 <= v@.len()
                    && v@.subrange(pieces@[k].0 as int, pieces@[k].1 as int) == all[k],
            texts(r@) == all.take(j as int).map_values(|f: Seq<char>| trim(f)),
        decreases pieces.len() - j,
    {
        let (a, b) = trim_bounds(v, pieces[j].0, pieces[j].1);
        let ghost before = r@;
        r.push(string_of(v, a, b));
        assert(texts(r@) =~= texts(before).push(v@.subrange(a as int, b as int)));
        assert(all.take(j + 1).map_values(|f: Seq<char>| trim(f)) =~= all.take(j as int).map_values(
            |f: Seq<char>| trim(f),
        ).push(trim(all[j as int])));
        assert(texts(r@) =~= all.take(j + 1).map_values(|f: Seq<char>| trim(f)));
        j = j + 1;
    }
    assert(all.take(all.len() as int) =~= all);
    r
}

fn text_is(s: &String, word: &str) -> (r: bool)
    ensures
        r == (s@ == word@),
{
    let a = to_chars(s.as_str());
    let b = to_chars(word);
    if a.len() != b.len() {
        return false;
    }
    let mut i: usize = 0;
    while i < a.len()
        invariant
            0 <= i <= a@.len(),
            a@.len() == b@.len(),
            a@ == s@,
            b@ == word@,
            forall|j: int| 0 <= j < i ==> a@[j] == b@[j],
        decreases a.len() - i,
    {
        if a[i] != b[i] {
            return false;
        }
        i = i + 1;
    }
    assert(a@ =~= b@);
    true
}

fn copy_text(s: &String) -> (r: String)
    ensures
        r@ == s@,
{
    s.clone()
}

/// Parse the contents of a requests file: one operation per line,
/// `insert, <key>, <value>` or `query, <key>`, fields trimmed, blank lines
/// skipped. The first bad line is refused with its number and text.
pub fn parse_requests_file(contents: &str) -> (r: Result<Vec<Op>, RequestsError>)
    ensures
        match parse_from(lines_of(contents@), 0) {
            Ok(ops) => r matches Ok(v) && v@.map_values(|o: Op| op_view(o)) == ops,
            Err(e) => r matches Err(x) && error_view(x) == e,
        },
{
    let cs = to_chars(contents);
    let bounds = line_bounds(&cs);
    let ghost lines = lines_of(cs@);
    let mut ops: Vec<Op> = Vec::new();
    let mut i: usize = 0;
    let insert_text = "insert";
    let query_text = "query";
    proof {
        reveal_strlit("insert");
        reveal_strlit("query");
        assert(insert_text@ =~= insert_word());
        assert(query_text@ =~= query_word());
    }
    while i < bounds.len()
        invariant
            0 <= i <= bounds@.len(),
            cs@ == contents@,
            lines == lines_of(cs@),
            bounds@.len() == lines.len(),
            insert_text@ == insert_word(),
            query_text@ == query_word(),
            forall|j: int|
                0 <= j < bounds@.len() ==> (#[trigger] bounds@[j]).0 <= bounds@[j].1 <= cs@.len()
                    && cs@.subrange(bounds@[j].0 as int, bounds@[j].1 as int) == lines[j],
            parse_from(lines, 0) == match parse_from(lines, i as int) {
                Ok(rest) => Ok(ops@.map_values(|o: Op| op_view(o)) + rest),
                Err(e) => Err::<Seq<OpSpec>, RequestsErrorSpec>(e),
            },
        decreases bounds.len() - i,
    {
        let line_no = i + 1;
        let (lo, hi) = (bounds[i].0, bounds[i].1);
        let (a, b) = trim_bounds(&cs, lo, hi);
        let ghost line = lines[i as int];
        assert(cs@.subrange(a as int, b as int) == trim(line));
        if a < b {
            let parts = split_fields(&cs, a, b);
            let raw = string_of(&cs, lo, hi);
            assert(texts(parts@) == fields(trim(line)));
            assert(parts@.len() > 0);
            assert(texts(parts@)[0] == parts@[0]@);
            if text_is(&parts[0], insert_text) {
                if parts.len() < 3 {
                    return Err(RequestsError::InvalidInsert { line_no, line: raw });
                }
                assert(texts(parts@)[1] == parts@[1]@);
                assert(texts(parts@)[2] == parts@[2]@);
                let ghost before = ops@;
                let ghost op = OpSpec::Insert(parts@[1]@, parts@[2]@);
                assert(parse_line(line, (i + 1) as nat) == Some(
                    Ok::<OpSpec, RequestsErrorSpec>(op),
                ));
                ops.push(Op::Insert { key: copy_text(&parts[1]), value: copy_text(&parts[2]) });
                assert(ops@.map_values(|o: Op| op_view(o)) =~= before.map_values(
                    |o: Op| op_view(o),
                ).push(op));
                proof {
                    match parse_from(lines, i + 1) {
                        Ok(rest) => {
                            assert(ops@.map_values(|o: Op| op_view(o)) + rest =~= before.map_values(
                                |o: Op| op_view(o),
                            ) + (seq![op] + rest));
                        },
                        Err(e) => {},
                    }
                }
            } else if text_is(&parts[0], query_text) {
                if parts.len() < 2 {
                    return Err(RequestsError::InvalidQuery { line_no, line: raw });
                }
                assert(texts(parts@)[1] == parts@[1]@);
                let ghost before = ops@;
                let ghost op = OpSpec::Query(parts@[1]@);
                assert(parse_line(line, (i + 1) as nat) == Some(
                    Ok::<OpSpec, RequestsErrorSpec>(op),
                ));
                ops.push(Op::Query { key: copy_text(&parts[1]) });
                assert(ops@.map_values(|o: Op| op_view(o)) =~= before.map_values(
                    |o: Op| op_view(o),
                ).push(op));
                proof {
                    match parse_from(lines, i + 1) {
                        Ok(rest) => {
                            assert(ops@.map_values(|o: Op| op_view(o)) + rest =~= before.map_values(
                                |o: Op| op_view(o),
                            ) + (seq![op] + rest));
                        },
                        Err(e) => {},
                    }
                }
            } else {
                return Err(
                    RequestsError::UnknownOperation { op: copy_text(&parts[0]), line_no, line: raw },
                );
            }
        } else {
            assert(parse_line(line, (i + 1) as nat) is None);
        }
        i = i + 1;
    }
    Ok(ops)
}

// ---------------------------------------------------------------------------
// Query results
// ---------------------------------------------------------------------------

/// `a` comes before `b` in the order of `String`: by their UTF-8 bytes.
pub open spec fn text_before(a: Seq<char>, b: Seq<char>) -> bool {
    precedes(encode_utf8(a), encode_utf8(b))
}

/// Strings in non-decreasing order.
pub open spec fn strings_sorted(s: Seq<String>) -> bool {
    forall|i: int, j: int| 0 <= i < j < s.len() ==> !text_before(s[j]@, s[i]@)
}

/// Calls `slice::sort` on strings, which orders them by their bytes
/// (`Ord` for `String`) and keeps every element.
#[verifier::external_body]
fn sort_strings(v: &mut Vec<String>)
    ensures
        final(v)@.to_multiset() == old(v)@.to_multiset(),
        strings_sorted(final(v)@),
{
    v.sort()
}

/// Texts joined with a separator.
pub open spec fn join(parts: Seq<Seq<char>>, sep: Seq<char>) -> Seq<char>
    decreases parts.len(),
{
    if parts.len() == 0 {
        seq![]
    } else if parts.len() == 1 {
        parts[0]
    } else {
        join(parts.drop_last(), sep) + sep + parts.last()
    }
}

/// `: `
pub open spec fn colon_space() -> Seq<char> {
    seq![':', ' ']
}

/// ` | `
pub open spec fn bar_sep() -> Seq<char> {
    seq![' ', '|', ' ']
}

/// `<none>`
pub open spec fn none_text() -> Seq<char> {
    seq!['<', 'n', 'o', 'n', 'e', '>']
}

/// One printed line: `<node>: <values joined by " | ">` or `<node>: <none>`.
pub open spec fn result_line(id: u64, vals: Seq<String>) -> Seq<char> {
    decimal(id as nat) + colon_space() + (if vals.len() == 0 {
        none_text()
    } else {
        join(texts(vals), bar_sep())
    }) + seq!['\n']
}

/// All printed lines of a table.
pub open spec fn render(table: Seq<(u64, Vec<String>)>) -> Seq<char>
    decreases table.len(),
{
    if table.len() == 0 {
        seq![]
    } else {
        render(table.drop_last()) + result_line(table.last().0, table.last().1@)
    }
}

/// Index of the last result for node `id` among the first `n`, or -1.
pub open spec fn last_for(results: Seq<(u64, Vec<String>)>, id: u64, n: int) -> int
    decreases n,
{
    if n <= 0 {
        -1
    } else if results[n - 1].0 == id {
        n - 1
    } else {
        last_for(results, id, n - 1)
    }
}

/// `table` lists every node of the first `n` results once, in increasing
/// order, with the values of its last result sorted.
pub open spec fn grouped(results: Seq<(u64, Vec<String>)>, n: int, table: Seq<(u64, Vec<String>)>) -> bool {
    &&& forall|a: int, b: int| 0 <= a < b < table.len() ==> table[a].0 < table[b].0
    &&& forall|a: int|
        0 <= a < table.len() ==> {
            let j = last_for(results, (#[trigger] table[a]).0, n);
            &&& 0 <= j
            &&& table[a].1@.to_multiset() == results[j].1@.to_multiset()
            &&& strings_sorted(table[a].1@)
        }
    &&& forall|j: int|
        0 <= j < n ==> exists|a: int| 0 <= a < table.len() && #[trigger] table[a].0 == (
        #[trigger] results[j]).0
}

proof fn lemma_last_for(results: Seq<(u64, Vec<String>)>, id: u64, n: int)
    requires
        0 <= n <= results.len(),
    ensures
        -1 <= last_for(results, id, n) < n,
        last_for(results, id, n) >= 0 ==> results[last_for(results, id, n)].0 == id,
        last_for(results, id, n) == -1 ==> forall|j: int| 0 <= j < n ==> (#[trigger] results[j]).0
            != id,
    decreases n,
{
    if n > 0 && results[n - 1].0 != id {
        lemma_last_for(results, id, n - 1);
    }
}

/// Print the results of a query deterministically: one line per node in
/// increasing order, the values of each node sorted; when a node appears
/// more than once, its last entry counts.
pub fn format_query_result(results: Vec<(u64, Vec<String>)>) -> (r: String)
    ensures
        exists|table: Seq<(u64, Vec<String>)>| #[trigger]
            grouped(results@, results@.len() as int, table) && r@ == render(table),
{
    let ghost rs = results@;
    let mut table: Vec<(u64, Vec<String>)> = Vec::new();
    let n = results.len();
    let mut i: usize = 0;
    while i < n
        invariant
            0 <= i <= n,
            n == rs.len(),
            results@ == rs,
            grouped(rs, i as int, table@),
        decreases n - i,
    {
        let id = results[i].0;
        let mut vals = results[i].1.clone();
        assert(vals@ =~= rs[i as int].1@);
        let ghost orig = vals@;
        sort_strings(&mut vals);
        let ghost before = table@;
        let mut p: usize = 0;
        while p < table.len() && table[p].0 < id
            invariant
                0 <= p <= table@.len(),
                table@ == before,
                forall|a: int| 0 <= a < p ==> (#[trigger] table@[a]).0 < id,
            decreases table.len() - p,
        {
            p = p + 1;
        }
        proof {
            lemma_last_for(rs, id, i + 1);
            assert forall|a: int| 0 <= a < before.len() implies {
                let k = (#[trigger] before[a]).0;
                k != id ==> last_for(rs, k, i + 1) == last_for(rs, k, i as int)
            } by {
            }
        }
        if p < table.len() && table[p].0 == id {
            table.set(p, (id, vals));
            proof {
                let after = table@;
                assert forall|a: int, b: int| 0 <= a < b < after.len() implies after[a].0
                    < after[b].0 by {
                    assert(before[a].0 < before[b].0);
                }
                assert forall|a: int| 0 <= a < after.len() implies {
                    let j = last_for(rs, (#[trigger] after[a]).0, i + 1);
                    &&& 0 <= j
                    &&& after[a].1@.to_multiset() == rs[j].1@.to_multiset()
                    &&& strings_sorted(after[a].1@)
                } by {
                    if a != p {
                        assert(after[a] == before[a]);
                        assert(before[a].0 != id) by {
                            if a < p {
                            } else {
                                assert(before[p as int].0 < before[a].0);
                            }
                        }
                        lemma_last_for(rs, before[a].0, i as int);
                    }
                }
                assert forall|j: int| 0 <= j < i + 1 implies exists|a: int|
                    0 <= a < after.len() && #[trigger] after[a].0 == (#[trigger] rs[j]).0 by {
                    if j == i {
                        assert(after[p as int].0 == rs[j].0);
                    } else {
                        let a = choose|a: int|
                            0 <= a < before.len() && #[trigger] before[a].0 == (#[trigger] rs[j]).0;
                        assert(after[a].0 == rs[j].0);
                    }
                }
            }
        } else {
            table.insert(p, (id, vals));
            proof {
                let after = table@;
                assert forall|a: int| 0 <= a < before.len() && p <= a implies id < (
                #[trigger] before[a]).0 by {
                    assert(before[p as int].0 >= id);
                    assert(before[p as int].0 != id);
                    if a > p {
                        assert(before[p as int].0 < before[a].0);
                    }
                }
                assert forall|a: int, b: int| 0 <= a < b < after.len() implies after[a].0
                    < after[b].0 by {
                    if a < p {
                        assert(after[a] == before[a]);
                    } else if a > p {
                        assert(after[a] == before[a - 1]);
                    }
                    if b < p {
                        assert(after[b] == before[b]);
                    } else if b > p {
                        assert(after[b] == before[b - 1]);
                    }
                }
                assert forall|a: int| 0 <= a < after.len() implies {
                    let j = last_for(rs, (#[trigger] after[a]).0, i + 1);
                    &&& 0 <= j
                    &&& after[a].1@.to_multiset() == rs[j].1@.to_multiset()
                    &&& strings_sorted(after[a].1@)
                } by {
                    if a < p {
                        assert(after[a] == before[a]);
                        lemma_last_for(rs, before[a].0, i as int);
                    } else if a > p {
                        assert(after[a] == before[a - 1]);
                        lemma_last_for(rs, before[a - 1].0, i as int);
                    }
                }
                assert forall|j: int| 0 <= j < i + 1 implies exists|a: int|
                    0 <= a < after.len() && #[trigger] after[a].0 == (#[trigger] rs[j]).0 by {
                    if j == i {
                        assert(after[p as int].0 == rs[j].0);
                    } else {
                        let a = choose|a: int|
                            0 <= a < before.len() && #[trigger] before[a].0 == (#[trigger] rs[j]).0;
                        if a < p {
                            assert(after[a].0 == rs[j].0);
                        } else {
                            assert(after[a + 1].0 == rs[j].0);
                        }
                    }
                }
            }
        }
        i = i + 1;
    }
    let out = render_table(&table);
    assert(grouped(rs, rs.len() as int, table@));
    out
}

fn render_table(table: &Vec<(u64, Vec<String>)>) -> (r: String)
    ensures
        r@ == render(table@),
{
    let mut out = String::new();
    let mut i: usize = 0;
    while i < table.len()
        invariant
            0 <= i <= table@.len(),
            out@ == render(table@.take(i as int)),
        decreases table.len() - i,
    {
        let ghost before = out@;
        push_decimal(&mut out, table[i].0);
        push_char(&mut out, ':');
        push_char(&mut out, ' ');
        let vals = &table[i].1;
        if vals.len() == 0 {
            push_char(&mut out, '<');
            push_char(&mut out, 'n');
            push_char(&mut out, 'o');
            push_char(&mut out, 'n');
            push_char(&mut out, 'e');
            push_char(&mut out, '>');
            assert(out@ =~= before + decimal(table@[i as int].0 as nat) + colon_space()
                + none_text());
        } else {
            let ghost mid = out@;
            let mut j: usize = 0;
            while j < vals.len()
                invariant
                    0 <= j <= vals@.len(),
                    vals@.len() > 0,
                    out@ == mid + join(texts(vals@.take(j as int)), bar_sep()),
                decreases vals.len() - j,
            {
                if j > 0 {
                    push_char(&mut out, ' ');
                    push_char(&mut out, '|');
                    push_char(&mut out, ' ');
                }
                out.append(vals[j].as_str());
                proof {
                    let t = texts(vals@.take(j + 1));
                    assert(t.drop_last() =~= texts(vals@.take(j as int)));
                    assert(t.last() == vals@[j as int]@);
                }
                assert(out@ =~= mid + join(texts(vals@.take(j + 1)), bar_sep()));
                j = j + 1;
            }
            assert(vals@.take(vals@.len() as int) =~= vals@);
        }
        push_char(&mut out, '\n');
        assert(table@.take(i + 1).drop_last() =~= table@.take(i as int));
        assert(out@ =~= render(table@.take(i + 1)));
        i = i + 1;
    }
    assert(table@.take(table@.len() as int) =~= table@);
    out
}

/// Texts that neither comes before the other are equal.
proof fn lemma_text_order_antisym(x: Seq<char>, y: Seq<char>)
    requires
        !text_before(x, y),
        !text_before(y, x),
    ensures
        x == y,
{
    broadcast use encode_utf8_decode_utf8;

    lemma_byte_order_antisym(encode_utf8(x), encode_utf8(y));
    assert(decode_utf8(encode_utf8(x)) == x);
    assert(decode_utf8(encode_utf8(y)) == y);
}

/// Two sorted orderings of the same strings read the same.
proof fn lemma_sorted_unique(s: Seq<String>, t: Seq<String>)
    requires
        s.to_multiset() == t.to_multiset(),
        strings_sorted(s),
        strings_sorted(t),
    ensures
        texts(s) == texts(t),
    decreases s.len(),
{
    broadcast use vstd::seq_lib::group_to_multiset_ensures;

    vstd::seq_lib::to_multiset_len(s);
    vstd::seq_lib::to_multiset_len(t);
    assert(s.len() == t.len());
    if s.len() == 0 {
        assert(texts(s) =~= texts(t));
    } else {
        let x = s[0];
        let y = t[0];
        assert(s.contains(x));
        assert(s.to_multiset().count(x) > 0);
        assert(t.contains(x));
        let j = choose|j: int| 0 <= j < t.len() && t[j] == x;
        assert(t.contains(y));
        assert(t.to_multiset().count(y) > 0);
        assert(s.contains(y));
        let i = choose|i: int| 0 <= i < s.len() && s[i] == y;
        if i > 0 && j > 0 {
            assert(!text_before(s[i]@, s[0]@));
            assert(!text_before(t[j]@, t[0]@));
            lemma_text_order_antisym(x@, y@);
        }
        assert(x@ == y@);
        assert forall|k: int| 0 <= k <= j implies #[trigger] t[k]@ == x@ by {
            if 0 < k < j {
                assert(!text_before(t[k]@, t[0]@));
                assert(!text_before(t[j]@, t[k]@));
                lemma_text_order_antisym(t[k]@, x@);
            }
        }
        let s2 = s.remove(0);
        let t2 = t.remove(j);
        assert(s2.to_multiset() == s.to_multiset().remove(x));
        assert(t2.to_multiset() == t.to_multiset().remove(x));
        assert forall|a: int, b: int| 0 <= a < b < s2.len() implies !text_before(
            (#[trigger] s2[b])@,
            (#[trigger] s2[a])@,
        ) by {
            assert(s2[a] == s[a + 1] && s2[b] == s[b + 1]);
        }
        assert forall|a: int, b: int| 0 <= a < b < t2.len() implies !text_before(
            (#[trigger] t2[b])@,
            (#[trigger] t2[a])@,
        ) by {
            let a1 = if a < j {
                a
            } else {
                a + 1
            };
            let b1 = if b < j {
                b
            } else {
                b + 1
            };
            assert(t2[a] == t[a1] && t2[b] == t[b1]);
        }
        lemma_sorted_unique(s2, t2);
        assert(texts(s) =~= seq![x@] + texts(s2));
        assert forall|k: int| 0 <= k < t.len() implies #[trigger] texts(t)[k] == (seq![x@] + texts(
            t2,
        ))[k] by {
            if k > 0 {
                if k - 1 < j {
                    assert(t2[k - 1] == t[k - 1]);
                } else {
                    assert(t2[k - 1] == t[k]);
                }
            }
        }
        assert(texts(t) =~= seq![x@] + texts(t2));
    }
}

/// Node `id` has a line in `table`.
pub open spec fn has_line(table: Seq<(u64, Vec<String>)>, id: u64) -> bool {
    exists|a: int| 0 <= a < table.len() && (#[trigger] table[a]).0 == id
}

/// Two tables in increasing node order, with the same nodes and the same
/// values for each node, print the same text.
proof fn lemma_tables_render(ta: Seq<(u64, Vec<String>)>, tb: Seq<(u64, Vec<String>)>)
    requires
        forall|a: int, b: int| 0 <= a < b < ta.len() ==> ta[a].0 < ta[b].0,
        forall|a: int, b: int| 0 <= a < b < tb.len() ==> tb[a].0 < tb[b].0,
        forall|id: u64| has_line(ta, id) == has_line(tb, id),
        forall|a: int, b: int|
            0 <= a < ta.len() && 0 <= b < tb.len() && (#[trigger] ta[a]).0 == (#[trigger] tb[b]).0
                ==> texts(ta[a].1@) == texts(tb[b].1@),
    ensures
        render(ta) == render(tb),
    decreases ta.len(),
{
    if ta.len() == 0 {
        if tb.len() > 0 {
            assert(has_line(tb, tb[0].0));
        }
    } else {
        let la = ta.len() - 1;
        assert(has_line(ta, ta[la].0));
        assert(has_line(tb, ta[la].0));
        let b = choose|b: int| 0 <= b < tb.len() && (#[trigger] tb[b]).0 == ta[la].0;
        let lb = tb.len() - 1;
        assert(has_line(tb, tb[lb].0));
        assert(has_line(ta, tb[lb].0));
        let a = choose|a: int| 0 <= a < ta.len() && (#[trigger] ta[a]).0 == tb[lb].0;
        assert(ta[la].0 == tb[lb].0) by {
            if b < lb {
                assert(tb[b].0 < tb[lb].0);
                assert(ta[a].0 <= ta[la].0);
            }
        }
        let da = ta.drop_last();
        let db = tb.drop_last();
        assert forall|id: u64| has_line(da, id) == has_line(db, id) by {
            if has_line(da, id) {
                let x = choose|x: int| 0 <= x < da.len() && (#[trigger] da[x]).0 == id;
                assert(ta[x].0 == id && ta[x].0 < ta[la].0);
                assert(has_line(ta, id));
                let y = choose|y: int| 0 <= y < tb.len() && (#[trigger] tb[y]).0 == id;
                assert(y != lb);
                assert(db[y].0 == id);
            }
            if has_line(db, id) {
                let y = choose|y: int| 0 <= y < db.len() && (#[trigger] db[y]).0 == id;
                assert(tb[y].0 == id && tb[y].0 < tb[lb].0);
                assert(has_line(tb, id));
                let x = choose|x: int| 0 <= x < ta.len() && (#[trigger] ta[x]).0 == id;
                assert(x != la);
                assert(da[x].0 == id);
            }
        }
        assert forall|x: int, y: int|
            0 <= x < da.len() && 0 <= y < db.len() && (#[trigger] da[x]).0 == (#[trigger] db[y]).0
                implies texts(da[x].1@) == texts(db[y].1@) by {
            assert(da[x] == ta[x] && db[y] == tb[y]);
        }
        lemma_tables_render(da, db);
        assert(texts(ta[la].1@) == texts(tb[lb].1@));
        assert(ta[la].1@.len() == texts(ta[la].1@).len());
        assert(tb[lb].1@.len() == texts(tb[lb].1@).len());
    }
}

/// Printing does not depend on the order of the results: two result lists
/// in which the same nodes appear, and each node's last entry holds the
/// same values in any order, print the same text.
pub proof fn lemma_format_order_free(
    a: Seq<(u64, Vec<String>)>,
    b: Seq<(u64, Vec<String>)>,
    ta: Seq<(u64, Vec<String>)>,
    tb: Seq<(u64, Vec<String>)>,
)
    requires
        grouped(a, a.len() as int, ta),
        grouped(b, b.len() as int, tb),
        forall|id: u64|
            (#[trigger] last_for(a, id, a.len() as int) >= 0) == (last_for(b, id, b.len() as int)
                >= 0),
        forall|id: u64|
            #[trigger] last_for(a, id, a.len() as int) >= 0 ==> a[last_for(
                a,
                id,
                a.len() as int,
            )].1@.to_multiset() == b[last_for(b, id, b.len() as int)].1@.to_multiset(),
    ensures
        render(ta) == render(tb),
{
    assert forall|id: u64| has_line(ta, id) == (last_for(a, id, a.len() as int) >= 0) by {
        lemma_last_for(a, id, a.len() as int);
        let j = last_for(a, id, a.len() as int);
        if j >= 0 {
            assert(a[j].0 == id);
            let x = choose|x: int| 0 <= x < ta.len() && #[trigger] ta[x].0 == a[j].0;
            assert(has_line(ta, id));
        }
    }
    assert forall|id: u64| has_line(tb, id) == (last_for(b, id, b.len() as int) >= 0) by {
        lemma_last_for(b, id, b.len() as int);
        let j = last_for(b, id, b.len() as int);
        if j >= 0 {
            assert(b[j].0 == id);
            let x = choose|x: int| 0 <= x < tb.len() && #[trigger] tb[x].0 == b[j].0;
            assert(has_line(tb, id));
        }
    }
    assert forall|x: int, y: int|
        0 <= x < ta.len() && 0 <= y < tb.len() && (#[trigger] ta[x]).0 == (#[trigger] tb[y]).0
            implies texts(ta[x].1@) == texts(tb[y].1@) by {
        let id = ta[x].0;
        assert(last_for(a, id, a.len() as int) >= 0);
        lemma_sorted_unique(ta[x].1@, tb[y].1@);
    }
    lemma_tables_render(ta, tb);
}

} // verus!
