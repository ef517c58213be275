//! Renders change records as markdown release notes.
//!
//! Each section becomes a `###` heading with its first character
//! uppercased, followed by one `  - ` bullet per change line. Optionally
//! every `#<number>` token in a bullet is rewritten into a link through a
//! caller-supplied format string with a `{number}` placeholder.

use std::fmt::Write;
use vstd::prelude::*;

use crate::extract::Change;
use crate::extract::secs_model;
use crate::parse::SecModel;
use crate::parse::Section;
use crate::strutil::cap_first;
use crate::strutil::replace_all;
use crate::strutil::replace_spec;

verus! {

/// What the issue-reference rewrite returns; the result depends on the
/// bullet text and the link format alone.
pub uninterp spec fn issue_links(text: Seq<char>, fmt: Seq<char>) -> Seq<char>;

/// Relies on `regex::Regex::replace_all` (through lazy-regex's re-export)
/// with the pattern `#(\d+)`: every issue-number token is rewritten
/// through the verified `substitute_number`, scanning left to right
/// without overlap; the result depends on the text and the format alone.
#[verifier::external_body]
fn rewrite_issue_refs(text: &str, fmt: &str) -> (r: String)
    ensures
        r@ == issue_links(text@, fmt@),
{
    let re = lazy_regex::Regex::new("#(\\d+)").unwrap();
    re.replace_all(text, |caps: &lazy_regex::Captures| substitute_number(fmt, &caps[1]))
        .into_owned()
}

/// The link format with its `{number}` placeholder replaced by the
/// issue number's digits.
pub fn substitute_number(fmt: &str, digits: &str) -> (r: String)
    ensures
        r@ == replace_spec(fmt@, "{number}"@, digits@),
{
    proof {
        reveal_strlit("{number}");
    }
    replace_all(fmt, "{number}", digits)
}

/// One rendered bullet line.
pub open spec fn bullet_line(text: Seq<char>, fmt: Seq<char>) -> Seq<char> {
    "  - "@ + (if fmt.len() == 0 {
        text
    } else {
        issue_links(text, fmt)
    }) + "\n"@
}

/// One rendered section heading.
pub open spec fn heading_line(name: Seq<char>) -> Seq<char> {
    "### "@ + cap_first(name) + "\n"@
}

/// The bullets of one section, rendered in order.
pub open spec fn rendered_bullets(items: Seq<Seq<char>>, fmt: Seq<char>) -> Seq<char>
    decreases items.len(),
{
    if items.len() == 0 {
        Seq::empty()
    } else {
        bullet_line(items[0], fmt) + rendered_bullets(items.drop_first(), fmt)
    }
}

/// All sections of one record, rendered in order.
pub open spec fn rendered_sections(secs: SecModel, fmt: Seq<char>) -> Seq<char>
    decreases secs.len(),
{
    if secs.len() == 0 {
        Seq::empty()
    } else {
        heading_line(secs[0].0) + rendered_bullets(secs[0].1, fmt) + rendered_sections(
            secs.drop_first(),
            fmt,
        )
    }
}

/// Appends the rendered sections of a section list to `result`.
pub(crate) fn write_sections_list(result: &mut String, sections: &Vec<Section>, issue_format: &str)
    ensures
        final(result)@ == old(result)@ + rendered_sections(secs_model(sections@), issue_format@),
{
    let ghost base = old(result)@;
    let ghost model = secs_model(sections@);
    let ghost fmt = issue_format@;
    let n = sections.len();
    let mut i: usize = 0;
    proof {
        assert(model.skip(0) =~= model);
    }
    while i < n
        invariant
            i <= n,
            n == sections.len(),
            model == secs_model(sections@),
            fmt == issue_format@,
            base + rendered_sections(model, fmt) == result@ + rendered_sections(
                model.skip(i as int),
                fmt,
            ),
        decreases n - i,
    {
        proof {
            assert(model.skip(i as int)[0] == model[i as int]);
            assert(model.skip(i as int).drop_first() =~= model.skip(i + 1));
        }
        let ghost r0 = result@;
        let heading = crate::strutil::capitalize_first(sections[i].name.as_str());
        result.append("### ");
        result.append(heading.as_str());
        result.append("\n");
        proof {
            assert(model[i as int].0 == sections[i as int].name@);
            assert(result@ =~= r0 + heading_line(model[i as int].0));
        }
        let ghost items = model[i as int].1;
        let m = sections[i].changes.len();
        let mut j: usize = 0;
        let ghost afterhead = result@;
        proof {
            assert(items == sections[i as int].changes.deep_view());
            assert(items.len() == m);
            assert(items.skip(0) =~= items);
        }
        while j < m
            invariant
                j <= m,
                i < n,
                n == sections.len(),
                m == sections[i as int].changes.len(),
                fmt == issue_format@,
                items == sections[i as int].changes.deep_view(),
                afterhead + rendered_bullets(items, fmt) == result@ + rendered_bullets(
                    items.skip(j as int),
                    fmt,
                ),
            decreases m - j,
        {
            proof {
                assert(items.skip(j as int)[0] == items[j as int]);
                assert(items.skip(j as int).drop_first() =~= items.skip(j + 1));
                assert(items[j as int] == sections[i as int].changes[j as int]@);
            }
            let ghost rb = result@;
            result.append("  - ");
            let raw = &sections[i].changes[j];
            if issue_format.unicode_len() == 0 {
                result.append(raw.as_str());
            } else {
                let rewritten = rewrite_issue_refs(raw.as_str(), issue_format);
                result.append(rewritten.as_str());
            }
            result.append("\n");
            proof {
                assert(result@ =~= rb + bullet_line(items[j as int], fmt));
                assert(afterhead + rendered_bullets(items, fmt) =~= result@ + rendered_bullets(
                    items.skip(j + 1),
                    fmt,
                ));
            }
            j = j + 1;
        }
        proof {
            assert(items.skip(m as int) =~= Seq::<Seq<char>>::empty());
            assert(result@ =~= afterhead + rendered_bullets(items, fmt));
            assert(base + rendered_sections(model, fmt) =~= result@ + rendered_sections(
                model.skip(i + 1),
                fmt,
            ));
        }
        i = i + 1;
    }
    proof {
        assert(model.skip(n as int) =~= Seq::<(Seq<char>, Seq<Seq<char>>)>::empty());
        assert(result@ =~= base + rendered_sections(model, fmt));
    }
}

/// Appends one record's rendered sections, rewriting `#<number>` tokens
/// through `issue_format` when it is non-empty.
pub fn write_section(result: &mut String, change: &Change, issue_format: &str)
    ensures
        final(result)@ == old(result)@ + rendered_sections(
            secs_model(change.sections@),
            issue_format@,
        ),
{
    write_sections_list(result, &change.sections, issue_format);
}

/// What chrono's strftime formatting returns for a timestamp; the text
/// depends on the timestamp and the format alone (UTC, fixed names).
pub uninterp spec fn time_formatted(ts: i64, fmt: Seq<char>) -> Seq<char>;

/// Whether chrono can format the timestamp with the format string: the
/// timestamp has a calendar representation and every format item is
/// valid. A function of the two arguments alone.
pub uninterp spec fn time_format_ok(ts: i64, fmt: Seq<char>) -> bool;

/// Relies on chrono's `DateTime::from_timestamp` and the strftime
/// formatting of `NaiveDateTime`: `from_timestamp` is `None` exactly for
/// a timestamp out of chrono's range, and writing the formatted text
/// fails exactly on an invalid format item; so the call succeeds exactly
/// when `time_format_ok` holds, and then returns the formatted text, a
/// function of the timestamp and the format alone.
#[verifier::external_body]
fn format_timestamp(ts: i64, fmt: &str) -> (r: Option<String>)
    ensures
        r is Some <==> time_format_ok(ts, fmt@),
        r matches Some(s) ==> s@ == time_formatted(ts, fmt@),
{
    let dt = chrono::DateTime::from_timestamp(ts, 0)?.naive_utc();
    let mut out = String::new();
    match write!(out, "{}", dt.format(fmt)) {
        Ok(_) => Some(out),
        Err(_) => None,
    }
}

/// Formats a timestamp for the other renderer layouts of this crate.
pub(crate) fn format_timestamp_pub(ts: i64, fmt: &str) -> (r: Option<String>)
    ensures
        r is Some <==> time_format_ok(ts, fmt@),
        r matches Some(s) ==> s@ == time_formatted(ts, fmt@),
{
    format_timestamp(ts, fmt)
}

/// A fatal rendering failure.
#[derive(Debug)]
pub enum RenderError {
    /// The record's timestamp cannot be formatted.
    InvalidTimestamp,
}

/// A header template with `{hash}`, `{name}` and `{timestamp}` filled
/// in; `{name}` is substituted a second time after the others.
pub open spec fn header_spec(
    template: Seq<char>,
    hash: Seq<char>,
    name: Seq<char>,
    time_text: Seq<char>,
) -> Seq<char> {
    replace_spec(
        replace_spec(
            replace_spec(replace_spec(template, "{hash}"@, hash), "{name}"@, name),
            "{timestamp}"@,
            time_text,
        ),
        "{name}"@,
        name,
    )
}

/// Fills one record's header template: `{hash}`, `{name}` and the
/// formatted `{timestamp}`. Fails only when the timestamp cannot be
/// formatted.
pub fn format_header(header_template: &str, date_format: &str, change: &Change) -> (r: Result<
    String,
    RenderError,
>)
    ensures
        r is Ok <==> time_format_ok(change.timestamp, date_format@),
        r matches Ok(h) ==> h@ == header_spec(
            header_template@,
            change.hash@,
            change.name@,
            time_formatted(change.timestamp, date_format@),
        ),
        r matches Err(e) ==> e is InvalidTimestamp,
{
    let t = match format_timestamp(change.timestamp, date_format) {
        Some(t) => t,
        None => {
            return Err(RenderError::InvalidTimestamp);
        },
    };
    proof {
        reveal_strlit("{hash}");
        reveal_strlit("{name}");
        reveal_strlit("{timestamp}");
    }
    let s1 = replace_all(header_template, "{hash}", change.hash.as_str());
    let s2 = replace_all(s1.as_str(), "{name}", change.name.as_str());
    let s3 = replace_all(s2.as_str(), "{timestamp}", t.as_str());
    let s4 = replace_all(s3.as_str(), "{name}", change.name.as_str());
    Ok(s4)
}

/// The rendering options of one run.
#[derive(Debug)]
pub struct Args {
    /// Input changelog file name; `-` for the standard input.
    pub changelog: String,
    /// Header template of a release record.
    pub tag_format: String,
    /// strftime format of `{timestamp}` in headers.
    pub date_format: String,
    /// Link format for `#<number>` tokens; empty leaves them alone.
    pub issue_format: String,
    /// Header template of the unreleased record.
    pub unreleased_header: String,
    /// Render only the newest record, without its header.
    pub only_last: bool,
    /// Optional template file whose `{changelog}` placeholder takes the
    /// rendered text.
    pub template: Option<String>,
}

/// The full rendering of one record with its header.
pub open spec fn full_section_spec(
    template: Seq<char>,
    date_format: Seq<char>,
    issue_format: Seq<char>,
    ch: Change,
) -> Seq<char> {
    "## "@ + header_spec(
        template,
        ch.hash@,
        ch.name@,
        time_formatted(ch.timestamp, date_format),
    ) + "\n"@ + rendered_sections(secs_model(ch.sections@), issue_format) + "\n"@
}

/// Appends one record with its `##` header: the release or unreleased
/// template, the rendered sections, and a blank line. A record without
/// sections adds nothing.
pub fn write_full_section(result: &mut String, args: &Args, change: &Change) -> (r: Result<
    (),
    RenderError,
>)
    ensures
        ({
            let template = if change.is_release {
                args.tag_format@
            } else {
                args.unreleased_header@
            };
            &&& change.sections@.len() == 0 ==> (r matches Ok(_) && final(result)@ == old(
                result,
            )@)
            &&& change.sections@.len() > 0 ==> (r is Ok <==> time_format_ok(
                change.timestamp,
                args.date_format@,
            ))
            &&& change.sections@.len() > 0 ==> match r {
                Ok(_) => final(result)@ == old(result)@ + full_section_spec(
                    template,
                    args.date_format@,
                    args.issue_format@,
                    *change,
                ),
                Err(e) => e is InvalidTimestamp && final(result)@ == old(result)@,
            }
        }),
{
    if change.sections.len() == 0 {
        return Ok(());
    }
    let header_format: &String = if change.is_release {
        &args.tag_format
    } else {
        &args.unreleased_header
    };
    let header = match format_header(header_format.as_str(), args.date_format.as_str(), change) {
        Ok(h) => h,
        Err(e) => {
            return Err(e);
        },
    };
    let ghost base = old(result)@;
    result.append("## ");
    result.append(header.as_str());
    result.append("\n");
    write_section(result, change, args.issue_format.as_str());
    result.append("\n");
    proof {
        assert(result@ =~= base + full_section_spec(
            (if change.is_release {
                args.tag_format@
            } else {
                args.unreleased_header@
            }),
            args.date_format@,
            args.issue_format@,
            *change,
        ));
    }
    Ok(())
}

} // verus!
