//! HTML rendering of the fortunes page, with entity escaping.

use vstd::prelude::*;

use crate::bytes::{append, ascii, literal};
use crate::digits::{format_i32, signed_decimal};
use crate::fortunes::{
    by_message, fortunes_of, law_every_fortune_is_shown, sort_by_message, Fortune,
};

verus! {

/// How a byte is written in HTML text: the five markup bytes as entities,
/// every other one as it is.
pub open spec fn entity(b: u8) -> Seq<u8> {
    if b == '&' as u8 {
        ascii("&amp;"@)
    } else if b == '<' as u8 {
        ascii("&lt;"@)
    } else if b == '>' as u8 {
        ascii("&gt;"@)
    } else if b == '"' as u8 {
        ascii("&quot;"@)
    } else if b == '\'' as u8 {
        ascii("&#x27;"@)
    } else {
        seq![b]
    }
}

/// A text with its markup bytes escaped.
pub open spec fn escaped(text: Seq<u8>) -> Seq<u8>
    decreases text.len(),
{
    if text.len() == 0 {
        Seq::empty()
    } else {
        escaped(text.drop_last()) + entity(text.last())
    }
}

/// The entity for a markup byte; `None` for a byte that stands for itself.
fn entity_for(b: u8) -> (found: Option<&'static [u8]>)
    ensures
        match found {
            Some(e) => e@ == entity(b),
            None => entity(b) == seq![b],
        },
{
    proof {
        reveal_strlit("&amp;");
        reveal_strlit("&lt;");
        reveal_strlit("&gt;");
        reveal_strlit("&quot;");
        reveal_strlit("&#x27;");
    }
    if b == '&' as u8 {
        Some(literal("&amp;"))
    } else if b == '<' as u8 {
        Some(literal("&lt;"))
    } else if b == '>' as u8 {
        Some(literal("&gt;"))
    } else if b == '"' as u8 {
        Some(literal("&quot;"))
    } else if b == '\'' as u8 {
        Some(literal("&#x27;"))
    } else {
        None
    }
}

/// Appends `input` to `output` with `&`, `<`, `>`, `"` and `'` escaped. Runs of
/// other bytes are copied in one go.
pub fn escape_html(input: &[u8], output: &mut Vec<u8>)
    ensures
        final(output)@ == old(output)@ + escaped(input@),
{
    let mut last: usize = 0;
    let mut i: usize = 0;
    assert(output@ + input@.subrange(0, 0) =~= old(output)@ + escaped(input@.take(0)));
    while i < input.len()
        invariant
            last <= i <= input@.len(),
            output@ + input@.subrange(last as int, i as int) == old(output)@ + escaped(
                input@.take(i as int),
            ),
        decreases input@.len() - i,
    {
        let ghost before = output@ + input@.subrange(last as int, i as int);
        assert(input@.take(i + 1).drop_last() =~= input@.take(i as int));
        match entity_for(input[i]) {
            Some(e) => {
                if i > last {
                    append(output, &input[last..i]);
                }
                append(output, e);
                last = i + 1;
                assert(output@ =~= before + entity(input@[i as int]));
                assert(output@ + input@.subrange(i + 1, i + 1) =~= output@);
            },
            None => {
                assert(output@ + input@.subrange(last as int, i + 1) =~= before + entity(
                    input@[i as int],
                ));
            },
        }
        i += 1;
        assert(output@ + input@.subrange(last as int, i as int) =~= old(output)@ + escaped(
            input@.take(i as int),
        ));
    }
    if last < input.len() {
        append(output, &input[last..input.len()]);
    }
    assert(input@.take(input@.len() as int) =~= input@);
    assert(output@ =~= old(output)@ + escaped(input@));
}

/// The start of the page.
pub const HEADER: &'static str =
    "<!DOCTYPE html><html><head><title>Fortunes</title></head><body><table><tr><th>id</th><th>message</th></tr>";

/// The end of the page.
pub const FOOTER: &'static str = "</table></body></html>";

/// The fortune that is added to those of the database.
pub const EXTRA_FORTUNE: &'static str = "Additional fortune added at request time.";

/// The table row of a fortune.
pub open spec fn row_html(fortune: Fortune) -> Seq<u8> {
    ascii("<tr><td>"@) + signed_decimal(fortune.id as int) + ascii("</td><td>"@) + escaped(
        fortune.message,
    ) + ascii("</td></tr>"@)
}

/// The table rows of a list of fortunes, in its order.
pub open spec fn rows_html(fortunes: Seq<Fortune>) -> Seq<u8>
    decreases fortunes.len(),
{
    if fortunes.len() == 0 {
        Seq::empty()
    } else {
        rows_html(fortunes.drop_last()) + row_html(fortunes.last())
    }
}

/// The fortune that is added at request time; its number is zero.
pub open spec fn extra_fortune() -> Fortune {
    Fortune { id: 0, message: ascii(EXTRA_FORTUNE@) }
}

/// The page for the fortunes of the database: they and the extra one, in order
/// of message, between the start and the end of the page.
pub open spec fn page(db_fortunes: Seq<Fortune>) -> Seq<u8> {
    ascii(HEADER@) + rows_html(by_message(db_fortunes.push(extra_fortune()))) + ascii(FOOTER@)
}

/// Renders rows that are already in order.
fn render_rows(rows: &[(i32, &[u8])], output: &mut Vec<u8>)
    ensures
        final(output)@ == ascii(HEADER@) + rows_html(fortunes_of(rows@)) + ascii(FOOTER@),
{
    proof {
        reveal_strlit("<!DOCTYPE html><html><head><title>Fortunes</title></head><body><table><tr><th>id</th><th>message</th></tr>");
        reveal_strlit("</table></body></html>");
        reveal_strlit("<tr><td>");
        reveal_strlit("</td><td>");
        reveal_strlit("</td></tr>");
    }
    output.clear();
    append(output, literal(HEADER));
    let mut id_buf = itoa::Buffer::new();
    let ghost all = fortunes_of(rows@);
    let mut i: usize = 0;
    assert(output@ =~= ascii(HEADER@) + rows_html(all.take(0)));
    while i < rows.len()
        invariant
            i <= rows@.len(),
            all == fortunes_of(rows@),
            output@ == ascii(HEADER@) + rows_html(all.take(i as int)),
            "<tr><td>".is_ascii(),
            "</td><td>".is_ascii(),
            "</td></tr>".is_ascii(),
        decreases rows@.len() - i,
    {
        let (id, message) = rows[i];
        append(output, literal("<tr><td>"));
        append(output, format_i32(&mut id_buf, id));
        append(output, literal("</td><td>"));
        escape_html(message, output);
        append(output, literal("</td></tr>"));
        proof {
            assert(all.take(i + 1).drop_last() =~= all.take(i as int));
            assert(all.take(i + 1).last() == all[i as int]);
            assert(output@ =~= ascii(HEADER@) + (rows_html(all.take(i as int)) + row_html(
                all[i as int],
            )));
        }
        i += 1;
    }
    assert(all.take(rows@.len() as int) =~= all);
    append(output, literal(FOOTER));
}

/// The fortunes that a list of numbers and strings stands for.
pub open spec fn string_fortunes(rows: Seq<(i32, String)>) -> Seq<Fortune> {
    Seq::new(
        rows.len(),
        |i: int| Fortune { id: rows[i].0, message: vstd::utf8::encode_utf8(rows[i].1@) },
    )
}

/// Renders the fortunes page: the fortunes of the database and the extra one,
/// in order of message. What `output` held before is replaced.
pub fn render_fortunes(db_fortunes: &[(i32, String)], output: &mut Vec<u8>)
    ensures
        final(output)@ == page(string_fortunes(db_fortunes@)),
{
    proof {
        reveal_strlit("Additional fortune added at request time.");
    }
    let mut fortunes: Vec<(i32, &[u8])> = Vec::new();
    let mut i: usize = 0;
    while i < db_fortunes.len()
        invariant
            i <= db_fortunes@.len(),
            fortunes@.len() == i,
            forall|k: int|
                0 <= k < i ==> (#[trigger] fortunes@[k]).0 == db_fortunes@[k].0
                    && fortunes@[k].1@ == vstd::utf8::encode_utf8(db_fortunes@[k].1@),
        decreases db_fortunes@.len() - i,
    {
        fortunes.push((db_fortunes[i].0, db_fortunes[i].1.as_str().as_bytes()));
        i += 1;
    }
    fortunes.push((0, literal(EXTRA_FORTUNE)));
    assert(fortunes_of(fortunes@) =~= string_fortunes(db_fortunes@).push(extra_fortune()));
    sort_by_message(fortunes.as_mut_slice());
    render_rows(fortunes.as_slice(), output);
}

/// How many fortunes of the database the fixed-size renderer takes.
pub const MAX_ROWS: usize = 15;

/// How many of `count` fortunes the fixed-size renderer takes.
pub open spec fn rows_taken(count: usize) -> int {
    if count < MAX_ROWS {
        count as int
    } else {
        MAX_ROWS as int
    }
}

/// Renders the fortunes page from borrowed bytes, without allocating for the
/// list: of the first `count` fortunes it takes the first fifteen.
pub fn render_fortunes_zerocopy(db_fortunes: &[(i32, &[u8])], count: usize, output: &mut Vec<u8>)
    requires
        rows_taken(count) <= db_fortunes@.len(),
    ensures
        final(output)@ == page(fortunes_of(db_fortunes@.take(rows_taken(count)))),
{
    proof {
        reveal_strlit("Additional fortune added at request time.");
    }
    let n: usize = if count < MAX_ROWS {
        count
    } else {
        MAX_ROWS
    };
    let mut fortunes: [(i32, &[u8]); 16] = [(0i32, literal(EXTRA_FORTUNE)); 16];
    let mut i: usize = 0;
    while i < n
        invariant
            i <= n <= MAX_ROWS,
            n <= db_fortunes@.len(),
            forall|k: int| 0 <= k < i ==> fortunes@[k] == db_fortunes@[k],
        decreases n - i,
    {
        fortunes[i] = db_fortunes[i];
        i += 1;
    }
    fortunes[n] = (0, literal(EXTRA_FORTUNE));
    let (rows, _) = fortunes.split_at_mut(n + 1);
    assert(fortunes_of(rows@) =~= fortunes_of(db_fortunes@.take(n as int)).push(extra_fortune()));
    sort_by_message(rows);
    render_rows(rows, output);
}

/// Escaping one text after another gives the same as escaping them together.
pub proof fn law_escape_concatenates(a: Seq<u8>, b: Seq<u8>)
    ensures
        escaped(a + b) == escaped(a) + escaped(b),
    decreases b.len(),
{
    if b.len() == 0 {
        assert(a + b =~= a);
        assert(escaped(a) + escaped(b) =~= escaped(a));
    } else {
        law_escape_concatenates(a, b.drop_last());
        assert((a + b).drop_last() =~= a + b.drop_last());
        assert(escaped(a + b) =~= escaped(a) + escaped(b));
    }
}

/// Escaped text holds no byte that could open or close a tag or an attribute
/// value.
pub proof fn law_escape_leaves_no_markup(text: Seq<u8>)
    ensures
        forall|i: int|
            0 <= i < escaped(text).len() ==> {
                let b = #[trigger] escaped(text)[i];
                b != '<' as u8 && b != '>' as u8 && b != '"' as u8 && b != '\'' as u8
            },
    decreases text.len(),
{
    if text.len() > 0 {
        law_escape_leaves_no_markup(text.drop_last());
        reveal_strlit("&amp;");
        reveal_strlit("&lt;");
        reveal_strlit("&gt;");
        reveal_strlit("&quot;");
        reveal_strlit("&#x27;");
        let front = escaped(text.drop_last());
        let e = entity(text.last());
        assert forall|i: int| 0 <= i < escaped(text).len() implies {
            let b = #[trigger] escaped(text)[i];
            b != '<' as u8 && b != '>' as u8 && b != '"' as u8 && b != '\'' as u8
        } by {
            if i >= front.len() {
                assert(escaped(text)[i] == e[i - front.len()]);
            }
        }
    }
}

proof fn lemma_escaped_first(text: Seq<u8>)
    requires
        text.len() > 0,
    ensures
        escaped(text) == entity(text[0]) + escaped(text.drop_first()),
{
    let first = seq![text[0]];
    law_escape_concatenates(first, text.drop_first());
    assert(first + text.drop_first() =~= text);
    assert(escaped(first.drop_last()) =~= Seq::<u8>::empty());
    assert(escaped(first) =~= entity(text[0]));
}

/// Escaping loses nothing: two texts that escape to the same bytes are the
/// same text.
pub proof fn law_escape_is_reversible(a: Seq<u8>, b: Seq<u8>)
    requires
        escaped(a) == escaped(b),
    ensures
        a == b,
    decreases a.len(),
{
    reveal_strlit("&amp;");
    reveal_strlit("&lt;");
    reveal_strlit("&gt;");
    reveal_strlit("&quot;");
    reveal_strlit("&#x27;");
    if a.len() == 0 && b.len() == 0 {
        assert(a =~= b);
    } else if a.len() == 0 {
        lemma_escaped_first(b);
        assert(escaped(b).len() > 0);
    } else if b.len() == 0 {
        lemma_escaped_first(a);
        assert(escaped(a).len() > 0);
    } else {
        lemma_escaped_first(a);
        lemma_escaped_first(b);
        let ea = entity(a[0]);
        let eb = entity(b[0]);
        let ra = escaped(a.drop_first());
        let rb = escaped(b.drop_first());
        assert((ea + ra)[0] == ea[0] && (eb + rb)[0] == eb[0]);
        if ea.len() > 1 && eb.len() > 1 {
            assert((ea + ra)[1] == ea[1] && (eb + rb)[1] == eb[1]);
        }
        assert(a[0] == b[0]);
        assert(ra =~= (ea + ra).skip(ea.len() as int));
        assert(rb =~= (eb + rb).skip(eb.len() as int));
        law_escape_is_reversible(a.drop_first(), b.drop_first());
        assert(a =~= seq![a[0]] + a.drop_first());
        assert(b =~= seq![b[0]] + b.drop_first());
    }
}

/// The two renderers show the same page for the same fortunes, as long as
/// there are no more than the fixed-size one takes.
pub proof fn law_renderers_agree(strings: Seq<(i32, String)>, rows: Seq<(i32, &[u8])>, count: usize)
    requires
        fortunes_of(rows) == string_fortunes(strings),
        count == rows.len() <= MAX_ROWS,
    ensures
        page(fortunes_of(rows.take(rows_taken(count)))) == page(string_fortunes(strings)),
{
    assert(rows.take(rows_taken(count)) =~= rows);
}

/// Five bytes have an entity and every other byte stands for itself.
pub proof fn law_markup_bytes_have_entities(b: u8)
    ensures
        escaped(Seq::<u8>::empty()) == Seq::<u8>::empty(),
        b == 38 ==> escaped(seq![b]) == ascii("&amp;"@),
        b == 60 ==> escaped(seq![b]) == ascii("&lt;"@),
        b == 62 ==> escaped(seq![b]) == ascii("&gt;"@),
        b == 34 ==> escaped(seq![b]) == ascii("&quot;"@),
        b == 39 ==> escaped(seq![b]) == ascii("&#x27;"@),
        b != 38 && b != 60 && b != 62 && b != 34 && b != 39 ==> escaped(seq![b]) == seq![b],
{
    let one = seq![b];
    assert(escaped(one.drop_last()) =~= Seq::<u8>::empty());
    assert(escaped(one) =~= entity(b));
}

/// The rows of two lists one behind the other are those of the first, then
/// those of the second; an empty list has none.
pub proof fn law_rows_concatenate(a: Seq<Fortune>, b: Seq<Fortune>)
    ensures
        rows_html(Seq::<Fortune>::empty()) == Seq::<u8>::empty(),
        rows_html(a + b) == rows_html(a) + rows_html(b),
    decreases b.len(),
{
    if b.len() == 0 {
        assert(a + b =~= a);
        assert(rows_html(a) + rows_html(b) =~= rows_html(a));
    } else {
        law_rows_concatenate(a, b.drop_last());
        assert((a + b).drop_last() =~= a + b.drop_last());
        assert(rows_html(a + b) =~= rows_html(a) + rows_html(b));
    }
}

/// A row shows the number of its fortune and then the message, escaped, each in
/// a cell of its own.
pub proof fn law_row_shows_number_and_message(fortune: Fortune)
    ensures
        ({
            let row = rows_html(seq![fortune]);
            let number = signed_decimal(fortune.id as int);
            let message = escaped(fortune.message);
            &&& row.len() == 8 + number.len() + 9 + message.len() + 10
            &&& row.take(8) == ascii("<tr><td>"@)
            &&& row.subrange(8, (8 + number.len()) as int) == number
            &&& row.subrange((8 + number.len()) as int, (17 + number.len()) as int) == ascii(
                "</td><td>"@,
            )
            &&& row.subrange((17 + number.len()) as int, row.len() - 10) == message
            &&& row.skip(row.len() - 10) == ascii("</td></tr>"@)
        }),
{
    reveal_strlit("<tr><td>");
    reveal_strlit("</td><td>");
    reveal_strlit("</td></tr>");
    let one = seq![fortune];
    let row = rows_html(one);
    let number = signed_decimal(fortune.id as int);
    let message = escaped(fortune.message);
    assert(rows_html(one.drop_last()) =~= Seq::<u8>::empty());
    assert(row =~= row_html(fortune));
    assert(row.take(8) =~= ascii("<tr><td>"@));
    assert(row.subrange(8, (8 + number.len()) as int) =~= number);
    assert(row.subrange((8 + number.len()) as int, (17 + number.len()) as int) =~= ascii(
        "</td><td>"@,
    ));
    assert(row.subrange((17 + number.len()) as int, row.len() - 10) =~= message);
    assert(row.skip(row.len() - 10) =~= ascii("</td></tr>"@));
}

/// The page shows the fortunes of the database and the one that is added, each
/// once and in the order of their messages, between the start and the end of
/// the table.
pub proof fn law_page_shows_the_fortunes(db_fortunes: Seq<Fortune>)
    ensures
        ({
            let start = ascii(
                "<!DOCTYPE html><html><head><title>Fortunes</title></head><body><table><tr><th>id</th><th>message</th></tr>"@,
            );
            let end = ascii("</table></body></html>"@);
            let added = Fortune {
                id: 0,
                message: ascii("Additional fortune added at request time."@),
            };
            let shown = by_message(db_fortunes.push(added));
            let html = page(db_fortunes);
            &&& shown.len() == db_fortunes.len() + 1
            &&& shown.to_multiset() == db_fortunes.to_multiset().insert(added)
            &&& html.len() == start.len() + rows_html(shown).len() + end.len()
            &&& html.take(start.len() as int) == start
            &&& html.subrange(start.len() as int, html.len() - end.len()) == rows_html(shown)
            &&& html.skip(html.len() - end.len()) == end
        }),
{
    let start = ascii(
        "<!DOCTYPE html><html><head><title>Fortunes</title></head><body><table><tr><th>id</th><th>message</th></tr>"@,
    );
    let end = ascii("</table></body></html>"@);
    let added = Fortune { id: 0, message: ascii("Additional fortune added at request time."@) };
    let shown = by_message(db_fortunes.push(added));
    let html = page(db_fortunes);
    law_every_fortune_is_shown(db_fortunes.push(added), Seq::empty());
    vstd::seq_lib::to_multiset_insert(db_fortunes, db_fortunes.len() as int, added);
    assert(db_fortunes.insert(db_fortunes.len() as int, added) =~= db_fortunes.push(added));
    assert(html.take(start.len() as int) =~= start);
    assert(html.subrange(start.len() as int, html.len() - end.len()) =~= rows_html(shown));
    assert(html.skip(html.len() - end.len()) =~= end);
}

/// A string of the database is the fortune with its number and its text, and
/// the renderer for borrowed bytes takes the first of them, no more than
/// fifteen.
pub proof fn law_strings_are_fortunes(rows: Seq<(i32, String)>, i: int, count: usize)
    requires
        0 <= i < rows.len(),
    ensures
        string_fortunes(rows).len() == rows.len(),
        string_fortunes(rows)[i].id == rows[i].0,
        string_fortunes(rows)[i].message == vstd::utf8::encode_utf8(rows[i].1@),
        rows_taken(count) <= count,
        rows_taken(count) <= 15,
        rows_taken(count) == count || rows_taken(count) == 15,
{
}

} // verus!
