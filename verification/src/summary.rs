//! One output line per window: a JSON object holding the counts section and
//! the percentiles section, each present only when configured, rendered and
//! escaped here so the whole line is pinned down by the batch and the
//! configuration alone.

use vstd::prelude::*;
use crate::aggregation::{
    canon_seq, count_agg, group_counts, lines_of, percentile, percentile_entries, sample_seq,
};
use crate::config::{Aggregate, Percentiles};
use crate::decimal::{dec_digits, push_dec_digits};
use crate::record::push_char;

verus! {

pub open spec fn hex_char(d: nat) -> char {
    if d == 0 {
        '0'
    } else if d == 1 {
        '1'
    } else if d == 2 {
        '2'
    } else if d == 3 {
        '3'
    } else if d == 4 {
        '4'
    } else if d == 5 {
        '5'
    } else if d == 6 {
        '6'
    } else if d == 7 {
        '7'
    } else if d == 8 {
        '8'
    } else if d == 9 {
        '9'
    } else if d == 10 {
        'a'
    } else if d == 11 {
        'b'
    } else if d == 12 {
        'c'
    } else if d == 13 {
        'd'
    } else if d == 14 {
        'e'
    } else {
        'f'
    }
}

/// How one character appears inside a JSON string literal: quotes and
/// backslashes are escaped, the named control characters take their short
/// escapes, other control characters take the `\u00XX` form, and everything
/// else stands as itself.
pub open spec fn esc_char(c: char) -> Seq<char> {
    if c == '"' {
        seq!['\\', '"']
    } else if c == '\\' {
        seq!['\\', '\\']
    } else if c == '\u{8}' {
        seq!['\\', 'b']
    } else if c == '\u{9}' {
        seq!['\\', 't']
    } else if c == '\u{A}' {
        seq!['\\', 'n']
    } else if c == '\u{C}' {
        seq!['\\', 'f']
    } else if c == '\u{D}' {
        seq!['\\', 'r']
    } else if (c as u32) < 32 {
        seq!['\\', 'u', '0', '0', hex_char((c as u32 / 16) as nat), hex_char((c as u32 % 16) as nat)]
    } else {
        seq![c]
    }
}

pub open spec fn escaped(s: Seq<char>) -> Seq<char>
    decreases s.len(),
{
    if s.len() == 0 {
        Seq::empty()
    } else {
        escaped(s.drop_last()) + esc_char(s.last())
    }
}

/// A JSON string literal: the escaped text between double quotes.
pub open spec fn quoted(s: Seq<char>) -> Seq<char> {
    seq!['"'] + escaped(s) + seq!['"']
}

/// Items joined by commas.
pub open spec fn join_comma(items: Seq<Seq<char>>) -> Seq<char>
    decreases items.len(),
{
    if items.len() == 0 {
        Seq::empty()
    } else if items.len() == 1 {
        items[0]
    } else {
        join_comma(items.drop_last()) + seq![','] + items.last()
    }
}

/// A JSON object over already-rendered `"key":value` items.
pub open spec fn obj_str(items: Seq<Seq<char>>) -> Seq<char> {
    seq!['{'] + join_comma(items) + seq!['}']
}

/// The counts object of one key: each canonical value string mapped to its
/// count.
pub open spec fn counts_obj(cs: Seq<(Seq<char>, int)>) -> Seq<char> {
    obj_str(Seq::new(cs.len(), |i: int| quoted(cs[i].0) + seq![':'] + dec_digits(cs[i].1 as nat)))
}

/// The percentiles object of one key: each percentile label mapped to its
/// rendered value, as a JSON string.
pub open spec fn perc_obj(entries: Seq<(Seq<char>, Seq<char>)>) -> Seq<char> {
    obj_str(
        Seq::new(entries.len(), |i: int| quoted(entries[i].0) + seq![':'] + quoted(entries[i].1)),
    )
}

/// The counts section body: one member per configured count key.
pub open spec fn counts_section(lines: Seq<Seq<char>>, cfg: Aggregate) -> Seq<char> {
    quoted("counts"@) + seq![':'] + obj_str(
        Seq::new(
            cfg.count_values@.len(),
            |i: int|
                quoted(cfg.count_values@[i]@) + seq![':'] + counts_obj(
                    group_counts(canon_seq(lines, cfg.count_values@[i]@)),
                ),
        ),
    )
}

/// The percentiles section body: one member per configured percentile
/// request.
pub open spec fn perc_section(lines: Seq<Seq<char>>, cfg: Aggregate) -> Seq<char> {
    quoted("percentiles"@) + seq![':'] + obj_str(
        Seq::new(
            cfg.percentiles@.len(),
            |i: int|
                quoted(cfg.percentiles@[i].agg_key@) + seq![':'] + perc_obj(
                    percentile_entries(
                        sample_seq(lines, cfg.percentiles@[i].agg_key@),
                        cfg.percentiles@[i].percentiles@,
                    ),
                ),
        ),
    )
}

/// The whole output line of one window: a JSON object holding the counts
/// section when count keys are configured and the percentiles section when
/// percentile requests are configured; an unconfigured section is absent,
/// not empty.
pub open spec fn summary_line_spec(lines: Seq<Seq<char>>, cfg: Aggregate) -> Seq<char> {
    let sections = (if cfg.count_values@.len() > 0 {
        seq![counts_section(lines, cfg)]
    } else {
        Seq::empty()
    }) + (if cfg.percentiles@.len() > 0 {
        seq![perc_section(lines, cfg)]
    } else {
        Seq::empty()
    });
    obj_str(sections)
}

/// Law: aggregation is pure. The output line is a function of the batch and
/// the configuration alone, so identical batches under identical
/// configurations always yield identical results.
pub proof fn lemma_aggregation_pure(
    lines1: Seq<Seq<char>>,
    lines2: Seq<Seq<char>>,
    cfg1: Aggregate,
    cfg2: Aggregate,
)
    requires
        lines1 == lines2,
        cfg1 == cfg2,
    ensures
        summary_line_spec(lines1, cfg1) == summary_line_spec(lines2, cfg2),
{
}

fn hex_str(d: u32) -> (r: &'static str)
    requires
        d < 16,
    ensures
        r@ == seq![hex_char(d as nat)],
{
    proof {
        reveal_strlit("0");
        reveal_strlit("1");
        reveal_strlit("2");
        reveal_strlit("3");
        reveal_strlit("4");
        reveal_strlit("5");
        reveal_strlit("6");
        reveal_strlit("7");
        reveal_strlit("8");
        reveal_strlit("9");
        reveal_strlit("a");
        reveal_strlit("b");
        reveal_strlit("c");
        reveal_strlit("d");
        reveal_strlit("e");
        reveal_strlit("f");
    }
    let r = match d {
        0 => "0",
        1 => "1",
        2 => "2",
        3 => "3",
        4 => "4",
        5 => "5",
        6 => "6",
        7 => "7",
        8 => "8",
        9 => "9",
        10 => "a",
        11 => "b",
        12 => "c",
        13 => "d",
        14 => "e",
        _ => "f",
    };
    proof {
        assert(r@ =~= seq![hex_char(d as nat)]);
    }
    r
}

/// Appends the JSON-escaped form of `s` to `out`.
#[verifier::loop_isolation(false)]
fn push_escaped(out: &mut String, s: &str)
    ensures
        final(out)@ == old(out)@ + escaped(s@),
{
    proof {
        reveal_strlit("\\\"");
        reveal_strlit("\\\\");
        reveal_strlit("\\b");
        reveal_strlit("\\t");
        reveal_strlit("\\n");
        reveal_strlit("\\f");
        reveal_strlit("\\r");
        reveal_strlit("\\u00");
    }
    let len = s.unicode_len();
    let mut i: usize = 0;
    while i < len
        invariant
            i <= len,
            out@ == old(out)@ + escaped(s@.subrange(0, i as int)),
        decreases len - i,
    {
        let c = s.get_char(i);
        let ghost pre = s@.subrange(0, i as int);
        proof {
            assert(s@.subrange(0, i as int + 1) =~= pre.push(c));
            assert(pre.push(c).drop_last() =~= pre);
        }
        if c == '"' {
            out.append("\\\"");
        } else if c == '\\' {
            out.append("\\\\");
        } else if c == '\u{8}' {
            out.append("\\b");
        } else if c == '\u{9}' {
            out.append("\\t");
        } else if c == '\u{A}' {
            out.append("\\n");
        } else if c == '\u{C}' {
            out.append("\\f");
        } else if c == '\u{D}' {
            out.append("\\r");
        } else if (c as u32) < 32 {
            out.append("\\u00");
            out.append(hex_str((c as u32) / 16));
            out.append(hex_str((c as u32) % 16));
        } else {
            push_char(out, c);
        }
        proof {
            assert(out@ =~= old(out)@ + escaped(s@.subrange(0, i as int + 1)));
        }
        i = i + 1;
    }
    proof {
        assert(s@.subrange(0, len as int) =~= s@);
    }
}

/// Appends the JSON string literal of `s` to `out`.
fn push_quoted(out: &mut String, s: &str)
    ensures
        final(out)@ == old(out)@ + quoted(s@),
{
    proof {
        reveal_strlit("\"");
    }
    out.append("\"");
    push_escaped(out, s);
    out.append("\"");
    proof {
        assert(out@ =~= old(out)@ + quoted(s@));
    }
}

/// Appends the counts object of one key.
#[verifier::loop_isolation(false)]
fn push_counts_obj(out: &mut String, cs: &Vec<(String, usize)>)
    ensures
        final(out)@ == old(out)@ + obj_str(
            Seq::new(
                cs@.len() as nat,
                |i: int| quoted(cs@[i].0@) + seq![':'] + dec_digits(cs@[i].1 as nat),
            ),
        ),
{
    proof {
        reveal_strlit("{");
        reveal_strlit("}");
        reveal_strlit(":");
        reveal_strlit(",");
    }
    let ghost items = Seq::new(
        cs@.len() as nat,
        |i: int| quoted(cs@[i].0@) + seq![':'] + dec_digits(cs@[i].1 as nat),
    );
    out.append("{");
    let mut i: usize = 0;
    while i < cs.len()
        invariant
            i <= cs@.len(),
            out@ == old(out)@ + seq!['{'] + join_comma(items.subrange(0, i as int)),
        decreases cs@.len() - i,
    {
        if i > 0 {
            out.append(",");
        }
        push_quoted(out, cs[i].0.as_str());
        out.append(":");
        push_dec_digits(out, cs[i].1 as u128);
        proof {
            assert(items.subrange(0, i as int + 1).drop_last() =~= items.subrange(0, i as int));
            assert(items.subrange(0, i as int + 1).last() == items[i as int]);
            assert(out@ =~= old(out)@ + seq!['{'] + join_comma(items.subrange(0, i as int + 1)));
        }
        i = i + 1;
    }
    out.append("}");
    proof {
        assert(items.subrange(0, cs@.len() as int) =~= items);
        assert(out@ =~= old(out)@ + obj_str(items));
    }
}

/// Appends the percentiles object of one key.
#[verifier::loop_isolation(false)]
fn push_perc_obj(out: &mut String, es: &Vec<(String, String)>)
    ensures
        final(out)@ == old(out)@ + obj_str(
            Seq::new(
                es@.len() as nat,
                |i: int| quoted(es@[i].0@) + seq![':'] + quoted(es@[i].1@),
            ),
        ),
{
    proof {
        reveal_strlit("{");
        reveal_strlit("}");
        reveal_strlit(":");
        reveal_strlit(",");
    }
    let ghost items = Seq::new(
        es@.len() as nat,
        |i: int| quoted(es@[i].0@) + seq![':'] + quoted(es@[i].1@),
    );
    out.append("{");
    let mut i: usize = 0;
    while i < es.len()
        invariant
            i <= es@.len(),
            out@ == old(out)@ + seq!['{'] + join_comma(items.subrange(0, i as int)),
        decreases es@.len() - i,
    {
        if i > 0 {
            out.append(",");
        }
        push_quoted(out, es[i].0.as_str());
        out.append(":");
        push_quoted(out, es[i].1.as_str());
        proof {
            assert(items.subrange(0, i as int + 1).drop_last() =~= items.subrange(0, i as int));
            assert(items.subrange(0, i as int + 1).last() == items[i as int]);
            assert(out@ =~= old(out)@ + seq!['{'] + join_comma(items.subrange(0, i as int + 1)));
        }
        i = i + 1;
    }
    out.append("}");
    proof {
        assert(items.subrange(0, es@.len() as int) =~= items);
        assert(out@ =~= old(out)@ + obj_str(items));
    }
}

fn clone_batch(batch: &Vec<String>) -> (r: Vec<String>)
    ensures
        r@ == batch@,
{
    let r = batch.clone();
    proof {
        assert forall|i: int| 0 <= i < r@.len() implies r@[i] == batch@[i] by {
            assert(vstd::pervasive::cloned::<String>(batch@[i], r@[i]));
        }
        assert(r@ =~= batch@);
    }
    r
}

fn clone_percs(ps: &Vec<u32>) -> (r: Vec<u32>)
    ensures
        r@ == ps@,
{
    let r = ps.clone();
    proof {
        assert forall|i: int| 0 <= i < r@.len() implies r@[i] == ps@[i] by {
            assert(vstd::pervasive::cloned::<u32>(ps@[i], r@[i]));
        }
        assert(r@ =~= ps@);
    }
    r
}

/// Appends the counts section of one window.
#[verifier::loop_isolation(false)]
fn push_counts_section(out: &mut String, batch: &Vec<String>, cfg: &Aggregate)
    ensures
        final(out)@ == old(out)@ + counts_section(lines_of(batch@), *cfg),
{
    proof {
        reveal_strlit("{");
        reveal_strlit("}");
        reveal_strlit(":");
        reveal_strlit(",");
    }
    let ghost lines = lines_of(batch@);
    let ghost citems = Seq::new(
        cfg.count_values@.len(),
        |i: int|
            quoted(cfg.count_values@[i]@) + seq![':'] + counts_obj(
                group_counts(canon_seq(lines, cfg.count_values@[i]@)),
            ),
    );
    push_quoted(out, "counts");
    out.append(":");
    out.append("{");
    let ghost base = out@;
    let mut i: usize = 0;
    while i < cfg.count_values.len()
        invariant
            i <= cfg.count_values@.len(),
            out@ == base + join_comma(citems.subrange(0, i as int)),
        decreases cfg.count_values@.len() - i,
    {
        if i > 0 {
            out.append(",");
        }
        let key = cfg.count_values[i].clone();
        push_quoted(out, key.as_str());
        out.append(":");
        let cr = count_agg(clone_batch(batch), key);
        let ghost g = group_counts(canon_seq(lines, cfg.count_values@[i as int]@));
        proof {
            assert(Seq::new(
                cr@.len() as nat,
                |k: int| quoted(cr@[k].0@) + seq![':'] + dec_digits(cr@[k].1 as nat),
            ) =~= Seq::new(
                g.len(),
                |k: int| quoted(g[k].0) + seq![':'] + dec_digits(g[k].1 as nat),
            ));
        }
        push_counts_obj(out, &cr);
        proof {
            assert(citems.subrange(0, i as int + 1).drop_last() =~= citems.subrange(0, i as int));
            assert(citems.subrange(0, i as int + 1).last() == citems[i as int]);
            assert(out@ =~= base + join_comma(citems.subrange(0, i as int + 1)));
        }
        i = i + 1;
    }
    out.append("}");
    proof {
        assert(citems.subrange(0, cfg.count_values@.len() as int) =~= citems);
        assert(out@ =~= old(out)@ + counts_section(lines, *cfg));
    }
}

/// Appends the percentiles section of one window.
#[verifier::loop_isolation(false)]
fn push_perc_section(out: &mut String, batch: &Vec<String>, cfg: &Aggregate)
    requires
        cfg.well_formed(),
    ensures
        final(out)@ == old(out)@ + perc_section(lines_of(batch@), *cfg),
{
    proof {
        reveal_strlit("{");
        reveal_strlit("}");
        reveal_strlit(":");
        reveal_strlit(",");
    }
    let ghost lines = lines_of(batch@);
    let ghost pitems = Seq::new(
        cfg.percentiles@.len(),
        |i: int|
            quoted(cfg.percentiles@[i].agg_key@) + seq![':'] + perc_obj(
                percentile_entries(
                    sample_seq(lines, cfg.percentiles@[i].agg_key@),
                    cfg.percentiles@[i].percentiles@,
                ),
            ),
    );
    push_quoted(out, "percentiles");
    out.append(":");
    out.append("{");
    let ghost base = out@;
    let mut i: usize = 0;
    while i < cfg.percentiles.len()
        invariant
            i <= cfg.percentiles@.len(),
            out@ == base + join_comma(pitems.subrange(0, i as int)),
        decreases cfg.percentiles@.len() - i,
    {
        if i > 0 {
            out.append(",");
        }
        let key = cfg.percentiles[i].agg_key.clone();
        push_quoted(out, key.as_str());
        out.append(":");
        let req = Percentiles {
            agg_key: key,
            percentiles: clone_percs(&cfg.percentiles[i].percentiles),
        };
        proof {
            assert(req.well_formed());
        }
        let pr = percentile(clone_batch(batch), req);
        let ghost e = percentile_entries(
            sample_seq(lines, cfg.percentiles@[i as int].agg_key@),
            cfg.percentiles@[i as int].percentiles@,
        );
        proof {
            assert(Seq::new(
                pr@.len() as nat,
                |k: int| quoted(pr@[k].0@) + seq![':'] + quoted(pr@[k].1@),
            ) =~= Seq::new(e.len(), |k: int| quoted(e[k].0) + seq![':'] + quoted(e[k].1)));
        }
        push_perc_obj(out, &pr);
        proof {
            assert(pitems.subrange(0, i as int + 1).drop_last() =~= pitems.subrange(0, i as int));
            assert(pitems.subrange(0, i as int + 1).last() == pitems[i as int]);
            assert(out@ =~= base + join_comma(pitems.subrange(0, i as int + 1)));
        }
        i = i + 1;
    }
    out.append("}");
    proof {
        assert(pitems.subrange(0, cfg.percentiles@.len() as int) =~= pitems);
        assert(out@ =~= old(out)@ + perc_section(lines, *cfg));
    }
}

/// Builds the whole output line of one window, exactly as
/// `summary_line_spec` describes: the counts and percentiles sections, each
/// present only when configured, over the batch's records.
pub fn summarize(batch: &Vec<String>, cfg: &Aggregate) -> (r: String)
    requires
        cfg.well_formed(),
    ensures
        r@ == summary_line_spec(lines_of(batch@), *cfg),
{
    proof {
        reveal_strlit("{");
        reveal_strlit("}");
        reveal_strlit(",");
    }
    let ghost lines = lines_of(batch@);
    let mut out = String::new();
    out.append("{");
    let has_counts = cfg.count_values.len() > 0;
    let has_percs = cfg.percentiles.len() > 0;
    if has_counts {
        push_counts_section(&mut out, batch, cfg);
    }
    if has_percs {
        if has_counts {
            out.append(",");
        }
        push_perc_section(&mut out, batch, cfg);
    }
    out.append("}");
    proof {
        let csec = counts_section(lines, *cfg);
        let psec = perc_section(lines, *cfg);
        if has_counts && has_percs {
            assert(join_comma(seq![csec, psec]) == csec + seq![','] + psec) by {
                assert(seq![csec, psec].drop_last() =~= seq![csec]);
                assert(seq![csec, psec].last() == psec);
                assert(join_comma(seq![csec]) == csec);
            }
            assert(seq![csec] + seq![psec] =~= seq![csec, psec]);
            assert(out@ =~= summary_line_spec(lines, *cfg));
        } else if has_counts {
            assert(out@ =~= summary_line_spec(lines, *cfg));
        } else if has_percs {
            assert(out@ =~= summary_line_spec(lines, *cfg));
        } else {
            assert(out@ =~= summary_line_spec(lines, *cfg));
        }
    }
    out
}

} // verus!
