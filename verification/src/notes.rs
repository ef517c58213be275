//! Renders a changelog split into an unreleased part and releases.
//!
//! This layout carries one unreleased changeset and a list of tagged
//! releases; headers may name the tag and a short commit hash.

use vstd::prelude::*;

use crate::parse::Section;
use crate::render::RenderError;
use crate::render::rendered_sections;
use crate::render::time_format_ok;
use crate::render::time_formatted;
use crate::extract::secs_model;
use crate::strutil::replace_all;
use crate::strutil::replace_spec;

verus! {

/// One set of changes: the commit it was resolved from, its time, and
/// its sections sorted by name.
#[derive(Debug)]
pub struct Changeset {
    pub hash: String,
    pub timestamp: i64,
    pub sections: Vec<Section>,
}

/// One tagged release and its changes.
#[derive(Debug)]
pub struct Release {
    pub tag: String,
    pub log: Changeset,
}

/// A whole changelog: what is not yet released, then the releases,
/// newest first.
#[derive(Debug)]
pub struct Changelog {
    pub unreleased: Changeset,
    pub releases: Vec<Release>,
}

/// Appends one changeset's rendered sections, without issue rewriting.
pub fn write_section(result: &mut String, changeset: &Changeset)
    ensures
        final(result)@ == old(result)@ + rendered_sections(
            secs_model(changeset.sections@),
            Seq::<char>::empty(),
        ),
{
    proof {
        reveal_strlit("");
        assert(("")@ =~= Seq::<char>::empty());
    }
    crate::render::write_sections_list(result, &changeset.sections, "");
}

/// The first seven characters of a hash, or all of a shorter one.
pub open spec fn short_hash_of(h: Seq<char>) -> Seq<char> {
    if h.len() >= 7 {
        h.take(7)
    } else {
        h
    }
}

/// A header template with `{hash}`, `{short_hash}`, the formatted
/// `{timestamp}` and, when a tag is given, `{tag}` filled in.
pub open spec fn notes_header_spec(
    template: Seq<char>,
    hash: Seq<char>,
    ts: i64,
    date_format: Seq<char>,
    tag: Option<Seq<char>>,
) -> Seq<char> {
    let t3 = replace_spec(
        replace_spec(
            replace_spec(template, "{hash}"@, hash),
            "{short_hash}"@,
            short_hash_of(hash),
        ),
        "{timestamp}"@,
        time_formatted(ts, date_format),
    );
    match tag {
        Option::Some(tg) => replace_spec(t3, "{tag}"@, tg),
        Option::None => t3,
    }
}

/// Fills one changeset's header template. Fails only when the timestamp
/// cannot be formatted.
pub fn format_header(
    header_template: &str,
    date_format: &str,
    changeset: &Changeset,
    tag: Option<&str>,
) -> (r: Result<String, RenderError>)
    ensures
        r is Ok <==> time_format_ok(changeset.timestamp, date_format@),
        r matches Ok(h) ==> h@ == notes_header_spec(
            header_template@,
            changeset.hash@,
            changeset.timestamp,
            date_format@,
            match tag {
                Option::Some(t) => Option::Some(t@),
                Option::None => Option::None,
            },
        ),
        r matches Err(e) ==> e is InvalidTimestamp,
{
    let t = match crate::render::format_timestamp_pub(changeset.timestamp, date_format) {
        Some(t) => t,
        None => {
            return Err(RenderError::InvalidTimestamp);
        },
    };
    proof {
        reveal_strlit("{hash}");
        reveal_strlit("{short_hash}");
        reveal_strlit("{timestamp}");
        reveal_strlit("{tag}");
    }
    let hlen = changeset.hash.as_str().unicode_len();
    let short: String = if hlen >= 7 {
        let sh = changeset.hash.as_str().substring_char(0, 7);
        proof {
            assert(sh@ =~= short_hash_of(changeset.hash@));
        }
        sh.to_owned()
    } else {
        changeset.hash.clone()
    };
    let s1 = replace_all(header_template, "{hash}", changeset.hash.as_str());
    let s2 = replace_all(s1.as_str(), "{short_hash}", short.as_str());
    let s3 = replace_all(s2.as_str(), "{timestamp}", t.as_str());
    match tag {
        Some(tg) => Ok(replace_all(s3.as_str(), "{tag}", tg)),
        None => Ok(s3),
    }
}

/// The full rendering of one changeset with its header.
pub open spec fn notes_full_spec(
    template: Seq<char>,
    date_format: Seq<char>,
    cs: Changeset,
    tag: Option<Seq<char>>,
) -> Seq<char> {
    "## "@ + notes_header_spec(template, cs.hash@, cs.timestamp, date_format, tag) + "\n"@
        + rendered_sections(secs_model(cs.sections@), Seq::<char>::empty()) + "\n"@
}

/// Appends one changeset with its `##` header; a changeset without
/// sections adds nothing.
pub fn write_full_section(
    result: &mut String,
    header_template: &str,
    date_format: &str,
    changeset: &Changeset,
    tag: Option<&str>,
) -> (r: Result<(), RenderError>)
    ensures
        ({
            let tg = match tag {
                Option::Some(t) => Option::Some(t@),
                Option::None => Option::None,
            };
            &&& changeset.sections@.len() == 0 ==> (r matches Ok(_) && final(result)@ == old(
                result,
            )@)
            &&& changeset.sections@.len() > 0 ==> (r is Ok <==> time_format_ok(
                changeset.timestamp,
                date_format@,
            ))
            &&& changeset.sections@.len() > 0 ==> match r {
                Ok(_) => final(result)@ == old(result)@ + notes_full_spec(
                    header_template@,
                    date_format@,
                    *changeset,
                    tg,
                ),
                Err(e) => e is InvalidTimestamp && final(result)@ == old(result)@,
            }
        }),
{
    if changeset.sections.len() == 0 {
        return Ok(());
    }
    let header = match format_header(header_template, date_format, changeset, tag) {
        Ok(h) => h,
        Err(e) => {
            return Err(e);
        },
    };
    let ghost base = old(result)@;
    result.append("## ");
    result.append(header.as_str());
    result.append("\n");
    write_section(result, changeset);
    result.append("\n");
    proof {
        assert(result@ =~= base + notes_full_spec(
            header_template@,
            date_format@,
            *changeset,
            (match tag {
                Option::Some(t) => Option::Some(t@),
                Option::None => Option::None,
            }),
        ));
    }
    Ok(())
}

} // verus!
