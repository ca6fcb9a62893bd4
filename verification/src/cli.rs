//! The command layer: every decision a command makes, as one function from
//! the parsed command, the loaded document and the gathered answers to the
//! document to persist and the text to print. The caller performs the
//! surrounding work — reading the environment, prompting, touching the file
//! system — and hands the results in as plain values.

use vstd::prelude::*;
use vstd::string::StringExecFns;
use crate::errors::WpError;
use crate::config::{
    Config, rendered_path, listed, sorted_by_priority, with_priority, without_location,
    first_loc_index, remove_path, edit_path, add_path, lemma_seed_render_round_trip,
};
use crate::waypoint::{Waypoint, WaypointView, views_of, waypoints_of_path, split_on};
use crate::json::{
    cfg_json, wps_json, lit_true, lit_false, digit_prefix, digits_val, is_digit, spec_wp_from_json,
    waypoints_json, lemma_digits_val_mono,
};

verus! {

/// The subcommands of the tool.
pub enum Commands {
    /// Seeds the config from the live environment path; errors if the file
    /// exists unless overwrite is set.
    Freeze { overwrite: bool },
    /// Prints the cached exported path string.
    Export,
    /// Prints the waypoints, optionally filtered by tag, sorted by priority.
    List { tag: Option<String> },
    /// Adds a waypoint from an explicit path argument or from prompts.
    /// The field records the argument for the caller; the decisions go by
    /// the context's resolved `location` and `location_exists`.
    Add { path: Option<String> },
    /// Deletes the interactively selected waypoints by location.
    Remove,
    /// Re-parses the interactively edited JSON of one waypoint.
    Edit,
}

/// One parsed command-line invocation.
pub struct Cli {
    pub command: Commands,
}

/// Everything the surrounding program gathered before the command runs:
/// the loaded document, the environment, and the prompt answers. An answer
/// that is `None` stands for a cancelled prompt.
pub struct CommandContext {
    /// The loaded document; `None` when the config file is missing or unread.
    pub config: Option<Config>,
    /// The process's inherited search path (used by freeze).
    pub env_path: String,
    /// Whether the config file already exists on disk (used by freeze).
    pub config_file_exists: bool,
    /// The canonicalized candidate location (used by add).
    pub location: Option<String>,
    /// Whether the candidate location exists on disk (used by add).
    pub location_exists: bool,
    /// The comma-separated tags answer (used by add).
    pub tags_answer: Option<String>,
    /// The priority answer (used by add).
    pub priority_answer: Option<String>,
    /// The active answer (used by add).
    pub active_answer: Option<String>,
    /// The selected location (used by remove and edit).
    pub selection: Option<String>,
    /// The submitted JSON text; empty means the edit was skipped.
    pub submission: Option<String>,
}

/// What a command leaves behind: the document as it now stands, the file
/// text to persist, the listing it produced, and the text to print.
pub struct CommandOutcome {
    /// The document after the command, where it changed it.
    pub config: Option<Config>,
    /// The JSON text to write to the config file, where the command saves.
    pub file_text: Option<String>,
    /// The records a listing selected, sorted by priority.
    pub listing: Option<Vec<Waypoint>>,
    /// What the command prints on success.
    pub output: String,
}

/// The number a priority answer denotes: all decimal digits, fitting `u32`.
pub open spec fn priority_of_text(s: Seq<char>) -> Option<u32> {
    if s.len() > 0 && digit_prefix(s) == s && digits_val(s) <= u32::MAX {
        Some(digits_val(s) as u32)
    } else {
        None
    }
}

/// The flag an active answer denotes: exactly `true` or `false`.
pub open spec fn active_of_text(s: Seq<char>) -> Option<bool> {
    if s == lit_true() {
        Some(true)
    } else if s == lit_false() {
        Some(false)
    } else {
        None
    }
}

/// Parses a priority answer. Fails with `ParseError` on anything but a
/// decimal number that fits.
pub fn parse_priority(text: &str) -> (r: Result<u32, WpError>)
    ensures
        match r {
            Ok(n) => priority_of_text(text@) == Some(n),
            Err(e) => priority_of_text(text@) is None && e == WpError::ParseError,
        },
{
    let chars = crate::text::str_chars(text);
    let n = chars.len();
    if n == 0 {
        proof {
            assert(digit_prefix(text@).len() == 0);
        }
        return Err(WpError::ParseError);
    }
    let mut acc: u64 = 0;
    let mut k: usize = 0;
    while k < n
        invariant
            k <= n,
            n == text@.len(),
            chars@ == text@,
            forall|j: int| 0 <= j < k ==> is_digit(text@[j]),
            acc == digits_val(text@.take(k as int)),
            acc <= u32::MAX,
        decreases n - k,
    {
        let c = chars[k];
        let u = c as u32;
        if u < 48 || u > 57 {
            proof {
                assert(!is_digit(text@[k as int]));
                lemma_digit_prefix_stops(text@, k as int);
            }
            return Err(WpError::ParseError);
        }
        let dg: u64 = (u - 48) as u64;
        let acc2: u64 = acc * 10 + dg;
        proof {
            let pre = text@.take(k + 1);
            assert(pre.drop_last() =~= text@.take(k as int));
            assert(pre.last() == text@[k as int]);
            assert(digits_val(pre) == acc * 10 + dg);
        }
        if acc2 > 0xFFFF_FFFFu64 {
            proof {
                if digit_prefix(text@) == text@ {
                    assert(forall|j: int| 0 <= j < text@.len() ==> is_digit(#[trigger] text@[j]))
                        by {
                        lemma_digit_prefix_chars(text@);
                    }
                    lemma_digits_val_mono(text@, k + 1);
                    assert(digits_val(text@) > u32::MAX);
                }
            }
            return Err(WpError::ParseError);
        }
        acc = acc2;
        k += 1;
    }
    proof {
        assert(text@.take(n as int) =~= text@);
        lemma_digit_prefix_whole(text@);
    }
    Ok(acc as u32)
}

/// A digit run stops at its first non-digit.
proof fn lemma_digit_prefix_stops(s: Seq<char>, k: int)
    requires
        0 <= k < s.len(),
        !is_digit(s[k]),
    ensures
        digit_prefix(s) != s,
    decreases k,
{
    if s.len() > 0 && is_digit(s[0]) {
        lemma_digit_prefix_stops(s.skip(1), k - 1);
        if digit_prefix(s) == s {
            assert(digit_prefix(s)[0] == s[0]);
            assert((seq![s[0]] + digit_prefix(s.skip(1))).skip(1) =~= digit_prefix(s.skip(1)));
            assert(digit_prefix(s.skip(1)) =~= s.skip(1));
        }
    } else {
        assert(digit_prefix(s).len() == 0);
    }
}

/// A run of digits is its own digit prefix.
proof fn lemma_digit_prefix_whole(s: Seq<char>)
    requires
        forall|j: int| 0 <= j < s.len() ==> is_digit(s[j]),
    ensures
        digit_prefix(s) == s,
    decreases s.len(),
{
    if s.len() > 0 {
        lemma_digit_prefix_whole(s.skip(1));
        assert(seq![s[0]] + s.skip(1) =~= s);
    }
}

/// The whole text is a digit run when it equals its digit prefix.
proof fn lemma_digit_prefix_chars(s: Seq<char>)
    requires
        digit_prefix(s) == s,
    ensures
        forall|j: int| 0 <= j < s.len() ==> is_digit(#[trigger] s[j]),
    decreases s.len(),
{
    if s.len() > 0 {
        assert(is_digit(s[0]));
        assert((seq![s[0]] + digit_prefix(s.skip(1))).skip(1) =~= digit_prefix(s.skip(1)));
        assert(digit_prefix(s.skip(1)) =~= s.skip(1));
        lemma_digit_prefix_chars(s.skip(1));
        assert forall|j: int| 0 <= j < s.len() implies is_digit(#[trigger] s[j]) by {
            if j > 0 {
                assert(s[j] == s.skip(1)[j - 1]);
            }
        }
    }
}

/// Parses an active answer. Fails with `ParseError` on anything but exactly
/// `true` or `false`.
pub fn parse_active(text: &str) -> (r: Result<bool, WpError>)
    ensures
        match r {
            Ok(b) => active_of_text(text@) == Some(b),
            Err(e) => active_of_text(text@) is None && e == WpError::ParseError,
        },
{
    proof {
        reveal_strlit("true");
        reveal_strlit("false");
        assert("true"@ =~= lit_true());
        assert("false"@ =~= lit_false());
    }
    let t = text.to_owned();
    if t == "true".to_owned() {
        Ok(true)
    } else {
        let t2 = text.to_owned();
        if t2 == "false".to_owned() {
            Ok(false)
        } else {
            Err(WpError::ParseError)
        }
    }
}

/// Splits a comma-separated tags answer into tags, keeping empty ones, as
/// the naive split does.
pub fn split_tags(text: &str) -> (r: Vec<String>)
    ensures
        r.deep_view() == split_on(text@, ','),
{
    crate::waypoint::split_on_char(text, ',')
}

} // verus!

verus! {

/// Why an add command fails, if it does, in the order the steps run.
pub open spec fn add_error(ctx: CommandContext) -> Option<WpError> {
    if ctx.config is None {
        Some(WpError::NotFound)
    } else if ctx.location is None {
        Some(WpError::Cancelled)
    } else if !ctx.location_exists {
        Some(WpError::NotFound)
    } else if ctx.tags_answer is None {
        Some(WpError::Cancelled)
    } else if ctx.priority_answer is None {
        Some(WpError::Cancelled)
    } else if priority_of_text((ctx.priority_answer->Some_0)@) is None {
        Some(WpError::ParseError)
    } else if ctx.active_answer is None {
        Some(WpError::Cancelled)
    } else if active_of_text((ctx.active_answer->Some_0)@) is None {
        Some(WpError::ParseError)
    } else {
        None
    }
}

/// The waypoint an add command builds from the gathered answers.
pub open spec fn added_waypoint(ctx: CommandContext) -> WaypointView
    recommends
        add_error(ctx) is None,
{
    WaypointView {
        location: (ctx.location->Some_0)@,
        tags: split_on((ctx.tags_answer->Some_0)@, ','),
        priority: priority_of_text((ctx.priority_answer->Some_0)@)->Some_0,
        active: active_of_text((ctx.active_answer->Some_0)@)->Some_0,
    }
}

/// Why an edit command fails, if it does, in the order the steps run.
/// A successful edit with an empty submission changes nothing.
pub open spec fn edit_error(ctx: CommandContext) -> Option<WpError> {
    if ctx.config is None {
        Some(WpError::NotFound)
    } else if ctx.selection is None {
        Some(WpError::Cancelled)
    } else if ctx.submission is None {
        Some(WpError::Cancelled)
    } else if first_loc_index(
        views_of((ctx.config->Some_0).waypoints@),
        (ctx.selection->Some_0)@,
    ) < 0 {
        Some(WpError::NotFound)
    } else if (ctx.submission->Some_0)@.len() == 0 {
        None
    } else if spec_wp_from_json((ctx.submission->Some_0)@) is None {
        Some(WpError::ParseError)
    } else {
        None
    }
}

impl Cli {
    /// Runs one command over the gathered context. Every branch the original
    /// tool takes is decided here; the caller only performs the effects.
    #[verifier::rlimit(60)]
    pub fn execute(self, ctx: CommandContext) -> (r: Result<CommandOutcome, WpError>)
        ensures
            (self.command matches Commands::Freeze { overwrite } ==> (match r {
                Ok(out) => {
                    &&& !(ctx.config_file_exists && !overwrite)
                    &&& out.config matches Some(c) && views_of(c.waypoints@)
                        == waypoints_of_path(ctx.env_path@) && c@.path == ctx.env_path@
                        && c@.metadata == Seq::<crate::config::MetaPairView>::empty()
                    &&& out.file_text matches Some(t) && t@ == cfg_json((out.config->Some_0)@)
                },
                Err(e) => ctx.config_file_exists && !overwrite && e == WpError::AlreadyExists,
            })),
            (self.command is Export ==> (match r {
                Ok(out) => ctx.config matches Some(c) && out.output@ == c.path@ && out.file_text
                    is None,
                Err(e) => ctx.config is None && e == WpError::NotFound,
            })),
            (self.command matches Commands::List { tag } ==> (match r {
                Ok(out) => ctx.config matches Some(c) && (out.listing matches Some(l) && {
                    &&& views_of(l@).to_multiset() == listed(
                        views_of(c.waypoints@),
                        match tag {
                            Option::None => Option::None,
                            Option::Some(t) => Option::Some(t@),
                        },
                    ).to_multiset()
                    &&& sorted_by_priority(views_of(l@))
                    &&& forall|p: u32| #[trigger] with_priority(views_of(l@), p)
                        == with_priority(
                        listed(
                            views_of(c.waypoints@),
                            match tag {
                                Option::None => Option::None,
                                Option::Some(t) => Option::Some(t@),
                            },
                        ),
                        p,
                    )
                    &&& out.output@ == wps_json(views_of(l@))
                    &&& out.file_text is None
                }),
                Err(e) => ctx.config is None && e == WpError::NotFound,
            })),
            (self.command is Add ==> (match r {
                Ok(out) => add_error(ctx) is None && (out.config matches Some(c) && {
                    &&& views_of(c.waypoints@) == views_of(
                        (ctx.config->Some_0).waypoints@,
                    ).push(added_waypoint(ctx))
                    &&& c@.path == rendered_path(views_of(c.waypoints@))
                    &&& c.metadata == (ctx.config->Some_0).metadata
                    &&& out.file_text matches Some(t) && t@ == cfg_json(c@)
                }),
                Err(e) => add_error(ctx) == Some(e),
            })),
            (self.command is Remove ==> (match r {
                Ok(out) => ctx.config matches Some(c0) && (ctx.selection matches Some(sel) && (
                out.config matches Some(c) && {
                    &&& views_of(c.waypoints@) == without_location(views_of(c0.waypoints@), sel@)
                    &&& c@.path == rendered_path(views_of(c.waypoints@))
                    &&& c.metadata == c0.metadata
                    &&& out.file_text matches Some(t) && t@ == cfg_json(c@)
                })),
                Err(e) => (ctx.config is None && e == WpError::NotFound) || (ctx.config is Some
                    && ctx.selection is None && e == WpError::Cancelled),
            })),
            (self.command is Edit ==> (match r {
                Ok(out) => edit_error(ctx) is None && {
                    let c0 = ctx.config->Some_0;
                    let sub = (ctx.submission->Some_0)@;
                    if sub.len() == 0 {
                        out.config is None && out.file_text is None
                    } else {
                        out.config matches Some(c) && {
                            &&& views_of(c.waypoints@) == views_of(c0.waypoints@).update(
                                first_loc_index(views_of(c0.waypoints@), (ctx.selection->Some_0)@),
                                spec_wp_from_json(sub)->Some_0,
                            )
                            &&& c@.path == rendered_path(views_of(c.waypoints@))
                            &&& c.metadata == c0.metadata
                            &&& out.file_text matches Some(t) && t@ == cfg_json(c@)
                        }
                    }
                },
                Err(e) => edit_error(ctx) == Some(e),
            })),
    {
        match self.command {
            Commands::Freeze { overwrite } => {
                let ghost env0 = ctx.env_path@;
                let mut c = match Config::freeze(ctx.env_path, ctx.config_file_exists, overwrite) {
                    Ok(c) => c,
                    Err(e) => {
                        return Err(e);
                    },
                };
                let text = c.save();
                proof {
                    lemma_seed_render_round_trip(env0);
                }
                Ok(CommandOutcome {
                    config: Some(c),
                    file_text: Some(text),
                    listing: None,
                    output: String::new(),
                })
            },
            Commands::Export => {
                match ctx.config {
                    None => Err(WpError::NotFound),
                    Some(c) => Ok(CommandOutcome {
                        config: None,
                        file_text: None,
                        listing: None,
                        output: crate::config::export_path(&c),
                    }),
                }
            },
            Commands::List { tag } => {
                match ctx.config {
                    None => Err(WpError::NotFound),
                    Some(c) => {
                        let l = match tag {
                            None => crate::config::list_paths(&c, None),
                            Some(ref t) => crate::config::list_paths(&c, Some(t)),
                        };
                        let output = waypoints_json(&l);
                        Ok(CommandOutcome {
                            config: None,
                            file_text: None,
                            listing: Some(l),
                            output,
                        })
                    },
                }
            },
            Commands::Add { path: _ } => {
                let mut c = match ctx.config {
                    None => {
                        return Err(WpError::NotFound);
                    },
                    Some(c) => c,
                };
                let location = match ctx.location {
                    None => {
                        return Err(WpError::Cancelled);
                    },
                    Some(l) => l,
                };
                if !ctx.location_exists {
                    return Err(WpError::NotFound);
                }
                let tags_answer = match ctx.tags_answer {
                    None => {
                        return Err(WpError::Cancelled);
                    },
                    Some(t) => t,
                };
                let priority_answer = match ctx.priority_answer {
                    None => {
                        return Err(WpError::Cancelled);
                    },
                    Some(p) => p,
                };
                let priority = match parse_priority(priority_answer.as_str()) {
                    Ok(n) => n,
                    Err(e) => {
                        return Err(e);
                    },
                };
                let active_answer = match ctx.active_answer {
                    None => {
                        return Err(WpError::Cancelled);
                    },
                    Some(a) => a,
                };
                let active = match parse_active(active_answer.as_str()) {
                    Ok(b) => b,
                    Err(e) => {
                        return Err(e);
                    },
                };
                let tags = split_tags(tags_answer.as_str());
                let w = Waypoint { location, tags, priority, active };
                proof {
                    assert(w@ =~~= added_waypoint(ctx));
                }
                add_path(&mut c, w);
                let text = c.save();
                Ok(CommandOutcome {
                    config: Some(c),
                    file_text: Some(text),
                    listing: None,
                    output: String::new(),
                })
            },
            Commands::Remove => {
                let mut c = match ctx.config {
                    None => {
                        return Err(WpError::NotFound);
                    },
                    Some(c) => c,
                };
                let selection = match ctx.selection {
                    None => {
                        return Err(WpError::Cancelled);
                    },
                    Some(s) => s,
                };
                remove_path(&mut c, &selection);
                let text = c.save();
                Ok(CommandOutcome {
                    config: Some(c),
                    file_text: Some(text),
                    listing: None,
                    output: String::new(),
                })
            },
            Commands::Edit => {
                let mut c = match ctx.config {
                    None => {
                        return Err(WpError::NotFound);
                    },
                    Some(c) => c,
                };
                let selection = match ctx.selection {
                    None => {
                        return Err(WpError::Cancelled);
                    },
                    Some(s) => s,
                };
                let submission = match ctx.submission {
                    None => {
                        return Err(WpError::Cancelled);
                    },
                    Some(s) => s,
                };
                let ghost vs0 = views_of(c.waypoints@);
                match crate::config::find_location(&c.waypoints, &selection) {
                    None => Err(WpError::NotFound),
                    Some(_i) => {
                        if submission.as_str().is_empty() {
                            return Ok(CommandOutcome {
                                config: None,
                                file_text: None,
                                listing: None,
                                output: String::new(),
                            });
                        }
                        let w = match Waypoint::from_json(submission.as_str()) {
                            Ok(w) => w,
                            Err(e) => {
                                return Err(e);
                            },
                        };
                        match edit_path(&mut c, &selection, w) {
                            Ok(()) => {},
                            Err(e) => {
                                return Err(e);
                            },
                        }
                        let text = c.save();
                        Ok(CommandOutcome {
                            config: Some(c),
                            file_text: Some(text),
                            listing: None,
                            output: String::new(),
                        })
                    },
                }
            },
        }
    }
}

} // verus!
