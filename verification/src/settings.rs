//! What is set, by whom, and under which names things are shown.

use vstd::prelude::*;
use vstd::string::*;

use crate::aggregator::discovery::{comma_parts, is_white, patterns_of, trimmed};
use crate::aggregator::workers::{next_generation, worker_number};
use crate::config::{default_config, overridden, resolved, ConfigView, Overrides};
use crate::reports::{
    css_lines, month_name_text, short_status_text, status_meaning, status_text, style_colour,
    style_variable, StyleConfig,
};
use crate::text::dec_text;

verus! {

/// What the command line sets counts before what the configuration says, and what it does not set
/// stays as it is.
pub proof fn law_command_line_counts_first(c: ConfigView, o: Overrides)
    ensures
        ({
            let r = overridden(c, o);
            &&& o.site_name matches Some(x) ==> r.site_name == x@
            &&& o.site_name is None ==> r.site_name == c.site_name
            &&& o.log_glob matches Some(x) ==> r.log_glob == x@
            &&& o.log_glob is None ==> r.log_glob == c.log_glob
            &&& o.database matches Some(x) ==> r.database == x@
            &&& o.database is None ==> r.database == c.database
            &&& o.output_dir matches Some(x) ==> r.output_dir == x@
            &&& o.output_dir is None ==> r.output_dir == c.output_dir
            &&& o.geoip_db matches Some(x) ==> r.geoip_db == Some(x@)
            &&& o.geoip_db is None ==> r.geoip_db == c.geoip_db
            &&& o.top_n matches Some(x) ==> r.top_n == x
            &&& o.top_n is None ==> r.top_n == c.top_n
            &&& o.enable_top_urls matches Some(x) ==> r.enable_top_urls == x
            &&& o.enable_top_urls is None ==> r.enable_top_urls == c.enable_top_urls
            &&& o.enable_top_sites matches Some(x) ==> r.enable_top_sites == x
            &&& o.enable_top_sites is None ==> r.enable_top_sites == c.enable_top_sites
            &&& o.enable_top_refs matches Some(x) ==> r.enable_top_refs == x
            &&& o.enable_top_refs is None ==> r.enable_top_refs == c.enable_top_refs
            &&& o.enable_top_agents matches Some(x) ==> r.enable_top_agents == x
            &&& o.enable_top_agents is None ==> r.enable_top_agents == c.enable_top_agents
            &&& o.checkpoint_minutes matches Some(x) ==> r.checkpoint_minutes == x
            &&& o.checkpoint_minutes is None ==> r.checkpoint_minutes == c.checkpoint_minutes
            &&& o.anonymise_ips matches Some(x) ==> r.anonymise_ips == x
            &&& o.anonymise_ips is None ==> r.anonymise_ips == c.anonymise_ips
            &&& o.bot_filter matches Some(x) ==> r.bot_filter == x
            &&& o.bot_filter is None ==> r.bot_filter == c.bot_filter
            &&& r.enable_all_time_unique_hosts == c.enable_all_time_unique_hosts
            &&& r.vacuum_after_prune == c.vacuum_after_prune
        }),
{
}

/// What holds where nothing is set.
pub proof fn law_what_holds_by_itself()
    ensures
        ({
            let c = default_config();
            &&& c.site_name == "My Site"@
            &&& c.log_glob.len() == 0
            &&& c.database == "./webstat.db"@
            &&& c.output_dir == "./output"@
            &&& c.geoip_db is None
            &&& c.top_n == 20
            &&& c.checkpoint_minutes == 0
            &&& c.bot_filter
            &&& !c.anonymise_ips
            &&& !c.vacuum_after_prune
            &&& c.enable_top_urls && c.enable_top_sites && c.enable_top_refs && c.enable_top_agents
            &&& c.enable_all_time_unique_hosts
        }),
{
}

/// A path is taken as it is where it is absolute or where there is no directory to start from. Else it
/// stands in the directory, with one slash in between.
pub proof fn law_paths_are_relative(base: Seq<char>, path: Seq<char>)
    ensures
        path.len() > 0 && path[0] == '/' ==> resolved(base, path) == path,
        base.len() == 0 ==> resolved(base, path) == path,
        base.len() > 0 && base.last() == '/' && !(path.len() > 0 && path[0] == '/') ==> resolved(
            base,
            path,
        ) == base + path,
        base.len() > 0 && base.last() != '/' && !(path.len() > 0 && path[0] == '/') ==> resolved(
            base,
            path,
        ) == base + seq!['/'] + path,
{
    reveal_strlit("/");
    assert("/"@ =~= seq!['/']);
}

/// White space that a text can have at its ends: spaces, tabs and ends of lines.
pub open spec fn is_blank_char(c: char) -> bool {
    c == ' ' || c == '\t' || c == '\n' || c == '\r'
}

/// White space at the ends of a text is dropped, and nothing else is.
pub proof fn law_ends_are_trimmed(s: Seq<char>, c: char)
    requires
        is_blank_char(c),
    ensures
        trimmed(seq![c] + s) == trimmed(s),
        trimmed(s.push(c)) == trimmed(s),
        s.len() > 0 && '!' <= s[0] <= '~' && '!' <= s.last() <= '~' ==> trimmed(s) == s,
    decreases s.len(),
{
    assert((seq![c] + s).drop_first() =~= s);
    let t = s.push(c);
    if s.len() == 0 {
        assert(t.drop_first() =~= s);
    } else if is_white(s[0]) {
        law_ends_are_trimmed(s.drop_first(), c);
        assert(t.drop_first() =~= s.drop_first().push(c));
    } else {
        assert(t.drop_last() =~= s);
        assert(t[0] == s[0]);
    }
}

/// Texts with commas in between.
pub open spec fn with_commas(l: Seq<Seq<char>>) -> Seq<char>
    decreases l.len(),
{
    if l.len() == 0 {
        Seq::empty()
    } else if l.len() == 1 {
        l[0]
    } else {
        with_commas(l.drop_last()) + seq![','] + l.last()
    }
}

/// A pattern can stand between commas: it has no comma, and characters that can be seen at its ends.
pub open spec fn is_pattern(p: Seq<char>) -> bool {
    &&& p.len() > 0
    &&& '!' <= p[0] <= '~'
    &&& '!' <= p.last() <= '~'
    &&& forall|i: int| 0 <= i < p.len() ==> #[trigger] p[i] != ','
}

proof fn lemma_part(a: Seq<char>, b: Seq<char>)
    requires
        forall|i: int| 0 <= i < b.len() ==> #[trigger] b[i] != ',',
    ensures
        comma_parts(a + seq![','] + b) == comma_parts(a).push(b),
        comma_parts(b) == seq![b],
    decreases b.len(),
{
    let s = a + seq![','] + b;
    if b.len() == 0 {
        assert(s.drop_last() =~= a);
        assert(comma_parts(s) =~= comma_parts(a).push(Seq::empty()));
        assert(b =~= Seq::empty());
        assert(comma_parts(b) =~= seq![b]);
    } else {
        let c = b.drop_last();
        lemma_part(a, c);
        assert(s.drop_last() =~= a + seq![','] + c);
        assert(s.last() == b[b.len() - 1]);
        let before = comma_parts(a).push(c);
        assert(c.push(b.last()) =~= b);
        assert(before.update(before.len() - 1, c.push(b.last())) =~= comma_parts(a).push(b));
        assert(seq![c].update(0, c.push(b.last())) =~= seq![b]);
    }
}

/// Patterns that stand in one text with commas in between are found again, each of them and in their
/// order.
pub proof fn law_patterns_are_found_again(l: Seq<Seq<char>>)
    requires
        l.len() > 0,
        forall|i: int| 0 <= i < l.len() ==> is_pattern(#[trigger] l[i]),
    ensures
        comma_parts(with_commas(l)) == l,
        patterns_of(comma_parts(with_commas(l))) == l,
    decreases l.len(),
{
    let rest = l.drop_last();
    let last = l.last();
    assert(is_pattern(l[l.len() - 1]));
    law_ends_are_trimmed(last, ' ');
    if l.len() == 1 {
        lemma_part(Seq::empty(), last);
        assert(seq![last] =~= l);
        assert(rest =~= Seq::<Seq<char>>::empty());
        assert(patterns_of(l) =~= l) by {
            reveal_with_fuel(patterns_of, 2);
            assert(patterns_of(rest) =~= Seq::<Seq<char>>::empty());
        }
    } else {
        assert forall|i: int| 0 <= i < rest.len() implies is_pattern(#[trigger] rest[i]) by {
            assert(rest[i] == l[i]);
        }
        law_patterns_are_found_again(rest);
        lemma_part(with_commas(rest), last);
        assert(rest.push(last) =~= l);
    }
}

/// There are as many workers as asked for, but never more than files, and one where none is asked
/// for.
pub proof fn law_number_of_workers(workers: int, files: int)
    requires
        workers >= 0,
        files >= 1,
    ensures
        1 <= worker_number(workers, files) <= files,
        workers >= 1 ==> worker_number(workers, files) <= workers,
        1 <= workers <= files ==> worker_number(workers, files) == workers,
        workers > files ==> worker_number(workers, files) == files,
{
}

/// No two checkpoints in a row have the same number.
pub proof fn law_checkpoints_are_told_apart(g: u64)
    ensures
        next_generation(g) != g,
        g < u64::MAX ==> next_generation(g) == g + 1,
{
}

/// The months of a year by their names.
pub proof fn law_months_in_full()
    ensures
        month_name_text(1) == "January"@,
        month_name_text(2) == "February"@,
        month_name_text(3) == "March"@,
        month_name_text(4) == "April"@,
        month_name_text(5) == "May"@,
        month_name_text(6) == "June"@,
        month_name_text(7) == "July"@,
        month_name_text(8) == "August"@,
        month_name_text(9) == "September"@,
        month_name_text(10) == "October"@,
        month_name_text(11) == "November"@,
        month_name_text(12) == "December"@,
{
}

/// What the status codes mean, and that no other has a meaning here.
pub proof fn law_meanings_of_codes(code: int)
    ensures
        status_meaning(0) == "Undefined response code"@,
        status_meaning(100) == "Continue"@,
        status_meaning(101) == "Switching Protocols"@,
        status_meaning(200) == "OK"@,
        status_meaning(201) == "Created"@,
        status_meaning(202) == "Accepted"@,
        status_meaning(204) == "No Content"@,
        status_meaning(206) == "Partial Content"@,
        status_meaning(301) == "Moved Permanently"@,
        status_meaning(302) == "Found"@,
        status_meaning(303) == "See Other"@,
        status_meaning(304) == "Not Modified"@,
        status_meaning(307) == "Temporary Redirect"@,
        status_meaning(308) == "Permanent Redirect"@,
        status_meaning(400) == "Bad Request"@,
        status_meaning(401) == "Unauthorized"@,
        status_meaning(403) == "Forbidden"@,
        status_meaning(404) == "Not Found"@,
        status_meaning(405) == "Method Not Allowed"@,
        status_meaning(406) == "Not Acceptable"@,
        status_meaning(410) == "Gone"@,
        status_meaning(429) == "Too Many Requests"@,
        status_meaning(500) == "Internal Server Error"@,
        status_meaning(502) == "Bad Gateway"@,
        status_meaning(503) == "Service Unavailable"@,
        status_meaning(504) == "Gateway Timeout"@,
        code != 0 && code != 100 && code != 101 && code != 200 && code != 201 && code != 202
            && code != 204 && code != 206 && code != 301 && code != 302 && code != 303
            && code != 304 && code != 307 && code != 308 && code != 400 && code != 401
            && code != 403 && code != 404 && code != 405 && code != 406 && code != 410
            && code != 429 && code != 500 && code != 502 && code != 503 && code != 504
            ==> status_meaning(code).len() == 0,
{
    reveal_strlit("");
}

/// A status code is shown with its meaning where it has one, and as it is where it has none.
pub proof fn law_codes_in_words(code: nat)
    ensures
        code > 0 && status_meaning(code as int).len() > 0 ==> status_text(code) == "Code "@
            + dec_text(code) + " - "@ + status_meaning(code as int),
        code > 0 && status_meaning(code as int).len() == 0 ==> status_text(code) == "Code "@
            + dec_text(code),
        status_text(0) == status_meaning(0),
        short_status_text(0) == "Unknown"@,
        short_status_text(200) == "200 OK"@,
        short_status_text(201) == "201 Created"@,
        short_status_text(202) == "202 Accepted"@,
        short_status_text(204) == "204 No Content"@,
        short_status_text(206) == "206 Partial"@,
        short_status_text(301) == "301 Moved"@,
        short_status_text(302) == "302 Found"@,
        short_status_text(304) == "304 Not Modified"@,
        short_status_text(307) == "307 Temp Redirect"@,
        short_status_text(308) == "308 Perm Redirect"@,
        short_status_text(400) == "400 Bad Request"@,
        short_status_text(401) == "401 Unauthorized"@,
        short_status_text(403) == "403 Forbidden"@,
        short_status_text(404) == "404 Not Found"@,
        short_status_text(405) == "405 Not Allowed"@,
        short_status_text(406) == "406 Not Acceptable"@,
        short_status_text(410) == "410 Gone"@,
        short_status_text(429) == "429 Too Many Reqs"@,
        short_status_text(500) == "500 Server Error"@,
        short_status_text(502) == "502 Bad Gateway"@,
        short_status_text(503) == "503 Unavailable"@,
        short_status_text(504) == "504 Gateway Timeout"@,
{
}

/// A style sheet has a line that sets a variable to a value.
pub open spec fn has_line(style: StyleConfig, name: Seq<char>, value: Seq<char>) -> bool {
    exists|k: int|
        0 <= k < 20 && #[trigger] style_variable(k) == name && (style_colour(style, k) matches Some(
            v,
        ) && v@ == value)
}

/// Every colour that is set is that of its own variable.
pub proof fn law_colours_have_their_variables(style: StyleConfig)
    ensures
        style.bg is Some ==> has_line(style, "--bg"@, style.bg->0@),
        style.surface is Some ==> has_line(style, "--surface"@, style.surface->0@),
        style.surface_alt is Some ==> has_line(style, "--surface-alt"@, style.surface_alt->0@),
        style.border is Some ==> has_line(style, "--border"@, style.border->0@),
        style.text is Some ==> has_line(style, "--text"@, style.text->0@),
        style.text_muted is Some ==> has_line(style, "--text-muted"@, style.text_muted->0@),
        style.accent is Some ==> has_line(style, "--accent"@, style.accent->0@),
        style.accent_hover is Some ==> has_line(style, "--accent-h"@, style.accent_hover->0@),
        style.metric_hits is Some ==> has_line(style, "--metric-hits"@, style.metric_hits->0@),
        style.metric_files is Some ==> has_line(style, "--metric-files"@, style.metric_files->0@),
        style.metric_pages is Some ==> has_line(style, "--metric-pages"@, style.metric_pages->0@),
        style.metric_visits is Some ==> has_line(
            style,
            "--metric-visits"@,
            style.metric_visits->0@,
        ),
        style.metric_sites is Some ==> has_line(style, "--metric-sites"@, style.metric_sites->0@),
        style.metric_bandwidth is Some ==> has_line(
            style,
            "--metric-bandwidth"@,
            style.metric_bandwidth->0@,
        ),
        style.status_2xx_bg is Some ==> has_line(
            style,
            "--status-2xx-bg"@,
            style.status_2xx_bg->0@,
        ),
        style.status_3xx_bg is Some ==> has_line(
            style,
            "--status-3xx-bg"@,
            style.status_3xx_bg->0@,
        ),
        style.status_4xx_bg is Some ==> has_line(
            style,
            "--status-4xx-bg"@,
            style.status_4xx_bg->0@,
        ),
        style.status_5xx_bg is Some ==> has_line(
            style,
            "--status-5xx-bg"@,
            style.status_5xx_bg->0@,
        ),
        style.status_other_bg is Some ==> has_line(
            style,
            "--status-other-bg"@,
            style.status_other_bg->0@,
        ),
        style.weekend_bg is Some ==> has_line(style, "--daily-weekend-bg"@, style.weekend_bg->0@),
{
    assert(style_variable(0) == "--bg"@);
    assert(style_variable(1) == "--surface"@);
    assert(style_variable(2) == "--surface-alt"@);
    assert(style_variable(3) == "--border"@);
    assert(style_variable(4) == "--text"@);
    assert(style_variable(5) == "--text-muted"@);
    assert(style_variable(6) == "--accent"@);
    assert(style_variable(7) == "--accent-h"@);
    assert(style_variable(8) == "--metric-hits"@);
    assert(style_variable(9) == "--metric-files"@);
    assert(style_variable(10) == "--metric-pages"@);
    assert(style_variable(11) == "--metric-visits"@);
    assert(style_variable(12) == "--metric-sites"@);
    assert(style_variable(13) == "--metric-bandwidth"@);
    assert(style_variable(14) == "--status-2xx-bg"@);
    assert(style_variable(15) == "--status-3xx-bg"@);
    assert(style_variable(16) == "--status-4xx-bg"@);
    assert(style_variable(17) == "--status-5xx-bg"@);
    assert(style_variable(18) == "--status-other-bg"@);
    assert(style_variable(19) == "--daily-weekend-bg"@);
}

/// A colour that is set adds its line behind the others, on a line of its own; one that is not set
/// adds nothing.
pub proof fn law_colours_have_their_lines(style: StyleConfig, k: int)
    requires
        0 <= k < 20,
    ensures
        ({
            let before = css_lines(style, k);
            let after = css_lines(style, k + 1);
            match style_colour(style, k) {
                Some(v) => {
                    let line = seq![' ', ' ', ' ', ' '] + style_variable(k) + seq![':', ' '] + v@
                        + seq![';'];
                    if before.len() == 0 {
                        after == line
                    } else {
                        after == before + seq!['\n'] + line
                    }
                },
                None => after == before,
            }
        }),
{
    reveal_strlit("    ");
    reveal_strlit(": ");
    reveal_strlit(";");
    reveal_strlit("\n");
    assert("    "@ =~= seq![' ', ' ', ' ', ' ']);
    assert(": "@ =~= seq![':', ' ']);
    assert(";"@ =~= seq![';']);
    assert("\n"@ =~= seq!['\n']);
}

} // verus!
