//! The miner facade: masks a line, forwards it to the clustering engine,
//! drives the snapshot policy, and recovers parameter values from a
//! template. The template-to-regex construction is verified string code;
//! only compiling and running the final regex is an outside call.

use vstd::prelude::*;
use vstd::string::*;
use crate::cluster::LogCluster;
use crate::cluster::SearchStrategy;
use crate::cluster::UpdateType;
use crate::cluster::clone_tokens;
use crate::config::TemplateMinerConfig;
use crate::config::config_valid;
use crate::drain::Drain;
use crate::drain::ingest_spec;
use crate::drain::match_spec;
use crate::extract::escape_chars;
use crate::extract::escape_spec;
use crate::extract::debackref_chars;
use crate::extract::debackref_spec;
use crate::extract::join_alt_chars;
use crate::extract::join_alternation;
use crate::extract::scan_placeholders;
use crate::extract::scan_template;
use crate::masking::AbstractMaskingInstruction;
use crate::masking::LogMasker;
use crate::masking::MaskingInstruction;
use crate::masking::MaskingInstructionConfig;
use crate::masking::mask_seq;
use crate::masking::names_from;
use crate::masking::patterns_for_name;
use crate::masking::regex_valid;
use crate::persistence::PersistenceHandler;
use crate::text::chars_string;
use crate::text::push_all;
use crate::text::replace_delims;
use crate::text::replace_lit;
use crate::text::replace_literal;
use crate::text::str_chars;
use crate::text::str_equal;

verus! {

/// An extracted parameter: the literal value that filled a placeholder
/// slot, and the mask name of that slot.
pub struct ExtractedParameter {
    pub value: String,
    pub mask_name: String,
}

impl ExtractedParameter {
    pub fn new(value: String, mask_name: String) -> (r: Self)
        ensures
            r.value@ == value@,
            r.mask_name@ == mask_name@,
    {
        ExtractedParameter { value, mask_name }
    }
}

/// A configuration the miner cannot be built from.
#[derive(Clone, Copy, Debug, PartialEq, Eq, Structural)]
pub enum ConfigError {
    InvalidDepth,
    InvalidSimilarity,
    InvalidRegex,
}

/// Whether `regex::Regex::new` accepts the pattern: success is a function
/// of the pattern alone.
pub uninterp spec fn std_regex_valid(pattern: Seq<char>) -> bool;

/// Whether the regex compiled from `pattern` matches somewhere in `text`
/// (what `regex::Regex::captures` returning `Some` means); a function of
/// pattern and text alone.
pub uninterp spec fn regex_matches(pattern: Seq<char>, text: Seq<char>) -> bool;

/// What the named capture group `group` captured in the leftmost match of
/// `pattern` in `text` (what `regex::Captures::name` returns); a function
/// of the three strings alone.
pub uninterp spec fn captures_group(pattern: Seq<char>, text: Seq<char>, group: Seq<char>) -> Option<
    Seq<char>,
>;

/// Relies on `regex::Regex::new`, `regex::Regex::captures` and
/// `regex::Captures::name`: compiles the pattern, finds the leftmost match
/// in `text`, and reads each named group's capture. All three are
/// deterministic in their string arguments.
#[verifier::external_body]
fn capture_named(pattern: &str, text: &str, groups: &Vec<String>) -> (r: Option<
    Vec<Option<String>>,
>)
    ensures
        (r is Some) == (std_regex_valid(pattern@) && regex_matches(pattern@, text@)),
        r matches Some(vals) ==> vals@.len() == groups@.len(),
        r matches Some(vals) ==> forall|i: int|
            0 <= i < vals@.len() ==> (match #[trigger] vals@[i] {
                Some(v) => captures_group(pattern@, text@, groups@[i]@) == Some(v@),
                None => captures_group(pattern@, text@, groups@[i]@) is None,
            }),
{
    let re = regex::Regex::new(pattern).ok()?;
    let caps = re.captures(text)?;
    let mut vals: Vec<Option<String>> = Vec::new();
    for g in groups {
        vals.push(caps.name(g).map(|m| m.as_str().to_string()));
    }
    Some(vals)
}

/// Relies on std's `SystemTime::now`: the wall clock as seconds since the
/// Unix epoch, 0 for a clock before the epoch. The value depends on the
/// clock, so nothing is promised of it.
#[verifier::external_body]
fn current_time_sec() -> u64 {
    match std::time::SystemTime::now().duration_since(std::time::UNIX_EPOCH) {
        Ok(d) => d.as_secs(),
        Err(_) => 0,
    }
}

/// The alternation placed inside one capture group: with exact matching,
/// the (back-reference-neutralized) patterns of the rules bound to the mask
/// name; the lazy wildcard is added unless exact matching is on and the
/// name is not `*`.
pub open spec fn alt_for_name(
    rules: Seq<(Seq<char>, Seq<char>)>,
    name: Seq<char>,
    exact: bool,
) -> Seq<char> {
    let base = if exact {
        patterns_for_name(rules, name).map_values(|p: Seq<char>| debackref_spec(p))
    } else {
        Seq::<Seq<char>>::empty()
    };
    let with_any = if !exact || name == seq!['*'] {
        base.push(seq!['.', '+', '?'])
    } else {
        base
    };
    join_alternation(with_any)
}

/// The fold over the mask names: each name's escaped placeholder text is
/// scanned for and replaced by capture groups, the group counter running
/// through. Returns the rewritten text, the final counter and the
/// `(group label, mask name)` pairs in creation order.
pub open spec fn build_fold(
    s: Seq<char>,
    names: Seq<Seq<char>>,
    rules: Seq<(Seq<char>, Seq<char>)>,
    exact: bool,
    prefix: Seq<char>,
    suffix: Seq<char>,
    k: int,
) -> (Seq<char>, int, Seq<(Seq<char>, Seq<char>)>)
    decreases names.len(),
{
    if names.len() == 0 {
        (s, k, Seq::empty())
    } else {
        let pat = escape_spec(prefix) + escape_spec(names[0]) + escape_spec(suffix);
        let alt = alt_for_name(rules, names[0], exact);
        let step = scan_placeholders(s, pat, alt, k);
        let rest = build_fold(step.0, names.drop_first(), rules, exact, prefix, suffix, step.1);
        (rest.0, rest.1, step.2.map_values(|l: Seq<char>| (l, names[0])) + rest.2)
    }
}

/// The mask names enumerated by the extractor: the masker's names in
/// first-occurrence order, then the wildcard name.
pub open spec fn extraction_names(rules: Seq<(Seq<char>, Seq<char>)>) -> Seq<Seq<char>> {
    names_from(rules, 0, Seq::empty()).push(seq!['*'])
}

/// The extraction regex for a template, and its group-to-mask-name map:
/// the template is escaped, each placeholder becomes a named capture
/// group, each escaped space becomes `\s+` so that whitespace runs are
/// tolerated, and the whole is anchored.
pub open spec fn template_regex_spec(
    template: Seq<char>,
    rules: Seq<(Seq<char>, Seq<char>)>,
    exact: bool,
    prefix: Seq<char>,
    suffix: Seq<char>,
) -> (Seq<char>, Seq<(Seq<char>, Seq<char>)>) {
    let folded = build_fold(escape_spec(template), extraction_names(rules), rules, exact, prefix, suffix, 0);
    (
        seq!['^'] + replace_lit(folded.0, seq!['\\', ' '], seq!['\\', 's', '+']) + seq!['$'],
        folded.2,
    )
}

/// The map entries as ghost pairs.
pub open spec fn pairs_model(s: Seq<(String, String)>) -> Seq<(Seq<char>, Seq<char>)> {
    Seq::new(s.len(), |i: int| (s[i].0@, s[i].1@))
}

/// The extracted `(value, mask name)` pairs: one for each map entry whose
/// group captured, in map order.
pub open spec fn extracted_spec(
    pattern: Seq<char>,
    text: Seq<char>,
    map: Seq<(Seq<char>, Seq<char>)>,
) -> Seq<(Seq<char>, Seq<char>)>
    decreases map.len(),
{
    if map.len() == 0 {
        Seq::empty()
    } else {
        let rest = extracted_spec(pattern, text, map.drop_first());
        match captures_group(pattern, text, map[0].0) {
            Some(v) => seq![(v, map[0].1)] + rest,
            None => rest,
        }
    }
}

/// The extracted parameters as ghost pairs.
pub open spec fn params_model(s: Seq<ExtractedParameter>) -> Seq<(Seq<char>, Seq<char>)> {
    Seq::new(s.len(), |i: int| (s[i].value@, s[i].mask_name@))
}

/// Every masking rule's pattern is a regex the masker's engine accepts.
pub open spec fn all_patterns_valid(cfgs: Seq<MaskingInstructionConfig>) -> bool {
    forall|i: int| 0 <= i < cfgs.len() ==> regex_valid((#[trigger] cfgs[i]).pattern@)
}

/// The miner: masker and engine composed, plus the snapshot policy.
pub struct TemplateMiner<P: PersistenceHandler> {
    pub config: TemplateMinerConfig,
    pub drain: Drain,
    pub masker: LogMasker,
    pub persistence_handler: Option<P>,
    pub last_save_time: u64,
    pub state_dirty: bool,
}

impl<P: PersistenceHandler> TemplateMiner<P> {
    pub open spec fn wf(self) -> bool {
        self.drain.wf()
    }

    /// What a line looks like after this miner's masker has run.
    pub open spec fn masked(self, content: Seq<char>) -> Seq<char> {
        mask_seq(self.masker.rules(), self.masker.prefix_view(), self.masker.suffix_view(), content)
    }

    /// Builds the masker and the engine from the configuration. Fails, and
    /// only fails, on a configuration error: a tree depth below 3, a
    /// threshold that is not a rational in [0, 1], or a masking pattern the
    /// regex engine rejects.
    pub fn new(config: TemplateMinerConfig, persistence_handler: Option<P>) -> (r: Result<
        Self,
        ConfigError,
    >)
        ensures
            r is Ok <==> config_valid(config) && all_patterns_valid(config.masking_instructions@),
            r matches Err(e) ==> e == (if config.drain_depth < 3 {
                ConfigError::InvalidDepth
            } else if !(0 < config.drain_sim_th_den && config.drain_sim_th_num
                <= config.drain_sim_th_den) {
                ConfigError::InvalidSimilarity
            } else {
                ConfigError::InvalidRegex
            }),
            r matches Ok(m) ==> ({
                &&& m.wf()
                &&& m.config == config
                &&& m.drain@.clusters.len() == 0
                &&& m.drain@.partitions.len() == 0
                &&& m.drain@.mint_counter == 0
                &&& m.drain@.depth == config.drain_depth as int
                &&& m.drain@.sim_num == config.drain_sim_th_num as int
                &&& m.drain@.sim_den == config.drain_sim_th_den as int
                &&& m.drain@.max_children == config.drain_max_children as int
                &&& m.drain@.extra_delimiters == config.drain_extra_delimiters.deep_view()
                &&& m.drain@.parametrize_numeric == config.parametrize_numeric_tokens
                &&& m.drain@.prefix == config.mask_prefix@
                &&& m.drain@.suffix == config.mask_suffix@
                &&& m.drain@.name == (if config.token_template@.len() == 0 {
                    "TOKEN"@
                } else {
                    config.token_template@
                })
                &&& m.masker.prefix_view() == config.mask_prefix@
                &&& m.masker.suffix_view() == config.mask_suffix@
                &&& m.masker.rules().len() == config.masking_instructions@.len()
                &&& forall|i: int|
                    0 <= i < config.masking_instructions@.len() ==> #[trigger] m.masker.rules()[i]
                        == (config.masking_instructions@[i].pattern@,
                    config.masking_instructions@[i].mask_with@)
            }),
    {
        if config.drain_depth < 3 {
            return Err(ConfigError::InvalidDepth);
        }
        if !(0 < config.drain_sim_th_den && config.drain_sim_th_num <= config.drain_sim_th_den) {
            return Err(ConfigError::InvalidSimilarity);
        }
        let mut instructions: Vec<MaskingInstruction> = Vec::new();
        let mut i: usize = 0;
        while i < config.masking_instructions.len()
            invariant
                i <= config.masking_instructions@.len(),
                config.drain_depth >= 3,
                0 < config.drain_sim_th_den,
                config.drain_sim_th_num <= config.drain_sim_th_den,
                instructions@.len() == i,
                forall|j: int|
                    0 <= j < i ==> regex_valid(
                        (#[trigger] config.masking_instructions@[j]).pattern@,
                    ),
                forall|j: int|
                    0 <= j < i ==> (#[trigger] instructions@[j]).pattern_view()
                        == config.masking_instructions@[j].pattern@ && instructions@[j].mask_view()
                        == config.masking_instructions@[j].mask_with@,
            decreases config.masking_instructions@.len() - i,
        {
            match MaskingInstruction::new(&config.masking_instructions[i]) {
                Some(mi) => {
                    instructions.push(mi);
                },
                None => {
                    proof {
                        assert(!regex_valid(config.masking_instructions@[i as int].pattern@));
                        assert(!all_patterns_valid(config.masking_instructions@));
                        assert(config.drain_depth >= 3);
                        assert(0 < config.drain_sim_th_den && config.drain_sim_th_num
                            <= config.drain_sim_th_den);
                    }
                    return Err(ConfigError::InvalidRegex);
                },
            }
            i = i + 1;
        }
        let masker = LogMasker::new(
            instructions,
            config.mask_prefix.as_str(),
            config.mask_suffix.as_str(),
        );
        let drain = Drain::new(
            config.drain_depth,
            config.drain_sim_th_num,
            config.drain_sim_th_den,
            config.drain_max_children,
            config.drain_max_clusters,
            clone_tokens(&config.drain_extra_delimiters),
            config.parametrize_numeric_tokens,
            config.token_template.as_str(),
            config.mask_prefix.as_str(),
            config.mask_suffix.as_str(),
        );
        let mut miner = TemplateMiner {
            config,
            drain,
            masker,
            persistence_handler,
            last_save_time: current_time_sec(),
            state_dirty: false,
        };
        let _loaded = miner.load_state();
        Ok(miner)
    }

    /// Fetches any stored snapshot. The payload is opaque to the engine:
    /// the state as constructed is kept, and the bytes are handed to the
    /// caller.
    fn load_state(&mut self) -> (r: Option<Vec<u8>>)
        ensures
            final(self).drain == old(self).drain,
            final(self).masker == old(self).masker,
            final(self).config == old(self).config,
    {
        match &mut self.persistence_handler {
            Some(h) => match h.load_state() {
                Ok(b) => b,
                Err(_) => None,
            },
            None => None,
        }
    }

    /// Masks the line and forwards it to the engine; marks the state dirty
    /// on any change and hands a snapshot to the persistence collaborator
    /// when one is attached, the state is dirty and the snapshot interval
    /// has passed. The dirty flag afterwards is `old || changed`, except
    /// that a successful snapshot (which needs a collaborator, a dirty
    /// state and an elapsed interval, the last read from the clock) resets
    /// it.
    pub fn add_log_message(&mut self, log_message: &str) -> (r: (LogCluster, UpdateType))
        requires
            old(self).wf(),
            old(self).drain@.clusters.len() < usize::MAX,
        ensures
            final(self).wf(),
            final(self).drain@ == ingest_spec(
                old(self).drain@,
                old(self).masked(log_message@),
            ).0,
            r.0@ == ingest_spec(old(self).drain@, old(self).masked(log_message@)).1,
            r.1 == ingest_spec(old(self).drain@, old(self).masked(log_message@)).2,
            final(self).masker == old(self).masker,
            final(self).config == old(self).config,
            (final(self).persistence_handler is Some) == (old(self).persistence_handler is Some),
            final(self).state_dirty ==> old(self).state_dirty || r.1 != UpdateType::Unchanged,
            !old(self).state_dirty && r.1 == UpdateType::Unchanged ==> final(self).state_dirty
                == false && final(self).last_save_time == old(self).last_save_time,
            old(self).persistence_handler is None ==> final(self).state_dirty == (old(self).state_dirty || r.1 != UpdateType::Unchanged) && final(self).last_save_time == old(self).last_save_time,
    {
        let masked_content = self.masker.mask(log_message);
        let (cluster, change_type) = self.drain.add_log_message(masked_content.as_str());
        let changed = match change_type {
            UpdateType::Unchanged => false,
            _ => true,
        };
        self.state_dirty = self.state_dirty || changed;
        if self.persistence_handler.is_some() && self.should_save_state() {
            let _saved_result = self.save_state();
        }
        (cluster, change_type)
    }

    /// Read-only lookup: masks the line and asks the engine for the best
    /// cluster under full-agreement similarity.
    pub fn match_cluster(&self, content: &str, strategy: SearchStrategy) -> (r: Option<LogCluster>)
        requires
            self.wf(),
        ensures
            match r {
                Some(c) => match_spec(self.drain@, self.masked(content@), strategy) == Some(
                    c@.cluster_id,
                ) && 1 <= c@.cluster_id <= self.drain@.clusters.len() && c@
                    == self.drain@.clusters[c@.cluster_id - 1],
                None => match_spec(self.drain@, self.masked(content@), strategy) is None,
            },
    {
        let masked_content = self.masker.mask(content);
        self.drain.match_cluster(masked_content.as_str(), strategy)
    }

    /// Builds the anchored extraction regex for a template, and the map
    /// from capture-group label to mask name.
    pub fn get_template_parameter_extraction_regex(
        &self,
        log_template: &str,
        exact_matching: bool,
    ) -> (r: (String, Vec<(String, String)>))
        ensures
            r.0@ == template_regex_spec(
                log_template@,
                self.masker.rules(),
                exact_matching,
                self.masker.prefix_view(),
                self.masker.suffix_view(),
            ).0,
            pairs_model(r.1@) == template_regex_spec(
                log_template@,
                self.masker.rules(),
                exact_matching,
                self.masker.prefix_view(),
                self.masker.suffix_view(),
            ).1,
    {
        let ghost rules = self.masker.rules();
        let ghost pfx = self.masker.prefix_view();
        let ghost sfx = self.masker.suffix_view();
        let template_chars = str_chars(log_template);
        let escaped_prefix = escape_chars(&str_chars(self.masker.get_mask_prefix()));
        let escaped_suffix = escape_chars(&str_chars(self.masker.get_mask_suffix()));
        let mut names = self.masker.mask_names();
        names.push(String::from_str("*"));
        let ghost names_dv = names.deep_view();
        proof {
            reveal_strlit("*");
            assert("*"@ =~= seq!['*']);
            assert(names_dv =~~= extraction_names(rules));
        }
        let mut cur = escape_chars(&template_chars);
        let ghost g = build_fold(escape_spec(log_template@), names_dv, rules, exact_matching, pfx, sfx, 0);
        let mut map: Vec<(String, String)> = Vec::new();
        let mut k: usize = 0;
        let mut n: usize = 0;
        proof {
            assert(names_dv.skip(0) =~= names_dv);
            assert(pairs_model(map@) =~= Seq::<(Seq<char>, Seq<char>)>::empty());
            assert(pairs_model(map@) + g.2 =~= g.2);
        }
        while n < names.len()
            invariant
                n <= names@.len(),
                names_dv == names.deep_view(),
                names_dv.len() == names@.len(),
                escaped_prefix@ == escape_spec(pfx),
                escaped_suffix@ == escape_spec(sfx),
                g == build_fold(
                    escape_spec(log_template@),
                    names_dv,
                    rules,
                    exact_matching,
                    pfx,
                    sfx,
                    0,
                ),
                rules == self.masker.rules(),
                g.0 == build_fold(cur@, names_dv.skip(n as int), rules, exact_matching, pfx, sfx, k as int).0,
                g.1 == build_fold(cur@, names_dv.skip(n as int), rules, exact_matching, pfx, sfx, k as int).1,
                g.2 == pairs_model(map@) + build_fold(
                    cur@,
                    names_dv.skip(n as int),
                    rules,
                    exact_matching,
                    pfx,
                    sfx,
                    k as int,
                ).2,
            decreases names@.len() - n,
        {
            let ghost tailnames = names_dv.skip(n as int);
            proof {
                assert(tailnames[0] == names_dv[n as int]);
                assert(tailnames.drop_first() =~= names_dv.skip(n as int + 1));
                assert(names@[n as int]@ == names_dv[n as int]);
            }
            let name = &names[n];
            let mut pat = escape_chars(&str_chars(name.as_str()));
            let mut full_pat: Vec<char> = Vec::new();
            push_all(&mut full_pat, &escaped_prefix);
            push_all(&mut full_pat, &pat);
            push_all(&mut full_pat, &escaped_suffix);
            let ghost pat_spec = escape_spec(pfx) + escape_spec(names_dv[n as int]) + escape_spec(
                sfx,
            );
            proof {
                assert(full_pat@ =~= pat_spec);
            }
            let mut alts: Vec<Vec<char>> = Vec::new();
            let ghost alt_base = patterns_for_name(rules, names_dv[n as int]).map_values(
                |p: Seq<char>| debackref_spec(p),
            );
            if exact_matching {
                let instrs = self.masker.instructions_by_mask_name(name.as_str());
                let mut j: usize = 0;
                while j < instrs.len()
                    invariant
                        j <= instrs@.len(),
                        alt_base == patterns_for_name(rules, names_dv[n as int]).map_values(
                            |p: Seq<char>| debackref_spec(p),
                        ),
                        rules == self.masker.rules(),
                        instrs@.len() == patterns_for_name(rules, names_dv[n as int]).len(),
                        forall|w: int|
                            0 <= w < instrs@.len() ==> (#[trigger] instrs@[w]).pattern_view()
                                == patterns_for_name(rules, names_dv[n as int])[w],
                        alts@.len() == j,
                        forall|w: int| 0 <= w < j ==> #[trigger] alts@[w]@ == alt_base[w],
                    decreases instrs@.len() - j,
                {
                    let p = debackref_chars(&str_chars(instrs[j].pattern()));
                    alts.push(p);
                    j = j + 1;
                }
            }
            let any_name = !exact_matching || str_equal(name.as_str(), "*");
            proof {
                reveal_strlit("*");
                assert("*"@ =~= seq!['*']);
            }
            let ghost with_any_spec = (if !exact_matching || names_dv[n as int] == seq!['*'] {
                (if exact_matching {
                    alt_base
                } else {
                    Seq::<Seq<char>>::empty()
                }).push(seq!['.', '+', '?'])
            } else {
                alt_base
            });
            if !exact_matching {
                proof {
                    assert(alts.deep_view() =~~= Seq::<Seq<char>>::empty());
                }
            }
            if any_name {
                let anyv: Vec<char> = vec!['.', '+', '?'];
                proof {
                    assert(anyv@ =~= seq!['.', '+', '?']);
                }
                alts.push(anyv);
            }
            proof {
                assert(alts.deep_view() =~~= with_any_spec);
                assert(join_alternation(alts.deep_view()) == alt_for_name(
                    rules,
                    names_dv[n as int],
                    exact_matching,
                ));
            }
            let alt = join_alt_chars(&alts);
            let ghost step = scan_placeholders(cur@, pat_spec, alt@, k as int);
            if full_pat.len() == 0 {
                proof {
                    assert(step.0 == cur@);
                    assert(step.1 == k as int);
                    assert(step.2 =~= Seq::<Seq<char>>::empty());
                    assert(step.2.map_values(|l: Seq<char>| (l, names_dv[n as int])) =~= Seq::<(
                        Seq<char>,
                        Seq<char>,
                    )>::empty());
                    assert(pairs_model(map@) + (step.2.map_values(
                        |l: Seq<char>| (l, names_dv[n as int]),
                    ) + build_fold(
                        step.0,
                        tailnames.drop_first(),
                        rules,
                        exact_matching,
                        pfx,
                        sfx,
                        step.1,
                    ).2) =~= pairs_model(map@) + build_fold(
                        step.0,
                        tailnames.drop_first(),
                        rules,
                        exact_matching,
                        pfx,
                        sfx,
                        step.1,
                    ).2);
                }
            } else {
                let mut labs: Vec<String> = Vec::new();
                proof {
                    assert(labs.deep_view() =~~= Seq::<Seq<char>>::empty());
                }
                let scanned = scan_template(&cur, &full_pat, &alt, k, &mut labs);
                proof {
                    assert(Seq::<Seq<char>>::empty() + step.2 =~= step.2);
                    assert(labs.deep_view() == step.2);
                }
                cur = scanned.0;
                k = scanned.1;
                let ghost old_map = map@;
                let mut w: usize = 0;
                while w < labs.len()
                    invariant
                        w <= labs@.len(),
                        labs.deep_view() == step.2,
                        labs@.len() == step.2.len(),
                        names_dv == names.deep_view(),
                        n < names@.len(),
                        names@[n as int]@ == names_dv[n as int],
                        pairs_model(map@) =~= pairs_model(old_map) + step.2.map_values(
                            |l: Seq<char>| (l, names_dv[n as int]),
                        ).subrange(0, w as int),
                    decreases labs@.len() - w,
                {
                    let lv = labs[w].clone();
                    let nv = names[n].clone();
                    let ghost lvv = lv@;
                    let ghost nvv = nv@;
                    let ghost om = map@;
                    map.push((lv, nv));
                    w = w + 1;
                    proof {
                        let mv = step.2.map_values(|l: Seq<char>| (l, names_dv[n as int]));
                        assert(labs.deep_view()[w - 1] == labs@[w - 1]@);
                        assert(lvv == step.2[w - 1]);
                        assert(nvv == names_dv[n as int]);
                        assert(mv[w - 1] == (step.2[w - 1], names_dv[n as int]));
                        assert(pairs_model(map@) =~= pairs_model(om).push((lvv, nvv)));
                        assert(pairs_model(map@) =~= pairs_model(old_map) + mv.subrange(
                            0,
                            w as int,
                        ));
                    }
                }
                proof {
                    let mv = step.2.map_values(|l: Seq<char>| (l, names_dv[n as int]));
                    assert(mv.subrange(0, mv.len() as int) =~= mv);
                    assert((pairs_model(old_map) + mv) + build_fold(
                        step.0,
                        tailnames.drop_first(),
                        rules,
                        exact_matching,
                        pfx,
                        sfx,
                        step.1,
                    ).2 =~= pairs_model(old_map) + (mv + build_fold(
                        step.0,
                        tailnames.drop_first(),
                        rules,
                        exact_matching,
                        pfx,
                        sfx,
                        step.1,
                    ).2));
                }
            }
            n = n + 1;
        }
        proof {
            assert(names_dv.skip(names_dv.len() as int) =~= Seq::<Seq<char>>::empty());
            assert(pairs_model(map@) + Seq::<(Seq<char>, Seq<char>)>::empty() =~= pairs_model(
                map@,
            ));
        }
        let back = vec!['\\', ' '];
        let ws = vec!['\\', 's', '+'];
        proof {
            assert(back@ =~= seq!['\\', ' ']);
            assert(ws@ =~= seq!['\\', 's', '+']);
        }
        let spaced = replace_literal(&cur, &back, &ws);
        let mut out: Vec<char> = Vec::new();
        out.push('^');
        push_all(&mut out, &spaced);
        out.push('$');
        proof {
            assert(out@ =~= seq!['^'] + replace_lit(g.0, seq!['\\', ' '], seq!['\\', 's', '+'])
                + seq!['$']);
        }
        (chars_string(&out), map)
    }

    /// Recovers the values that occupy the placeholder slots of a template
    /// in an observed line. Returns `None` exactly when the built regex is
    /// not accepted by the engine or does not match the normalized line.
    pub fn extract_parameters(
        &self,
        log_template: &str,
        log_message: &str,
        exact_matching: bool,
    ) -> (r: Option<Vec<ExtractedParameter>>)
        ensures
            ({
                let rx = template_regex_spec(
                    log_template@,
                    self.masker.rules(),
                    exact_matching,
                    self.masker.prefix_view(),
                    self.masker.suffix_view(),
                );
                let normalized = replace_delims(log_message@, self.drain@.extra_delimiters);
                &&& (r is Some <==> std_regex_valid(rx.0) && regex_matches(rx.0, normalized))
                &&& (r matches Some(ps) ==> params_model(ps@) == extracted_spec(
                    rx.0,
                    normalized,
                    rx.1,
                ))
            }),
    {
        let ghost rx = template_regex_spec(
            log_template@,
            self.masker.rules(),
            exact_matching,
            self.masker.prefix_view(),
            self.masker.suffix_view(),
        );
        let (regex_str, map) = self.get_template_parameter_extraction_regex(
            log_template,
            exact_matching,
        );
        let msg_chars = str_chars(log_message);
        let mut norm = msg_chars;
        let space: Vec<char> = vec![' '];
        let ghost delims = self.drain@.extra_delimiters;
        proof {
            assert(space@ =~= seq![' ']);
            assert(delims.skip(0) =~= delims);
        }
        let mut di: usize = 0;
        while di < self.drain.extra_delimiters.len()
            invariant
                di <= self.drain.extra_delimiters@.len(),
                space@ == seq![' '],
                delims == self.drain@.extra_delimiters,
                delims.len() == self.drain.extra_delimiters@.len(),
                replace_delims(log_message@, delims) == replace_delims(
                    norm@,
                    delims.skip(di as int),
                ),
            decreases self.drain.extra_delimiters@.len() - di,
        {
            proof {
                assert(delims.skip(di as int)[0] == delims[di as int]);
                assert(delims[di as int] == self.drain.extra_delimiters@[di as int]@);
                assert(delims.skip(di as int).drop_first() =~= delims.skip(di as int + 1));
            }
            let d = str_chars(self.drain.extra_delimiters[di].as_str());
            norm = replace_literal(&norm, &d, &space);
            di = di + 1;
        }
        proof {
            assert(delims.skip(delims.len() as int) =~= Seq::<Seq<char>>::empty());
        }
        let normalized = chars_string(&norm);
        let mut groups: Vec<String> = Vec::new();
        let mut gi: usize = 0;
        while gi < map.len()
            invariant
                gi <= map@.len(),
                groups@.len() == gi,
                forall|w: int| 0 <= w < gi ==> #[trigger] groups@[w]@ == map@[w].0@,
            decreases map@.len() - gi,
        {
            groups.push(map[gi].0.clone());
            gi = gi + 1;
        }
        match capture_named(regex_str.as_str(), normalized.as_str(), &groups) {
            None => None,
            Some(vals) => {
                let ghost mp = pairs_model(map@);
                let mut extracted: Vec<ExtractedParameter> = Vec::new();
                let mut i: usize = 0;
                proof {
                    assert(mp.skip(0) =~= mp);
                    assert(params_model(extracted@) =~= Seq::<(Seq<char>, Seq<char>)>::empty());
                }
                while i < map.len()
                    invariant
                        i <= map@.len(),
                        mp == pairs_model(map@),
                        mp.len() == map@.len(),
                        vals@.len() == map@.len(),
                        forall|w: int| 0 <= w < map@.len() ==> #[trigger] groups@[w]@ == map@[w].0@,
                        groups@.len() == map@.len(),
                        forall|w: int|
                            0 <= w < vals@.len() ==> (match #[trigger] vals@[w] {
                                Some(v) => captures_group(rx.0, normalized@, groups@[w]@) == Some(
                                    v@,
                                ),
                                None => captures_group(rx.0, normalized@, groups@[w]@) is None,
                            }),
                        normalized@ == replace_delims(log_message@, delims),
                        extracted_spec(rx.0, normalized@, mp) == params_model(extracted@)
                            + extracted_spec(rx.0, normalized@, mp.skip(i as int)),
                    decreases map@.len() - i,
                {
                    proof {
                        assert(mp.skip(i as int)[0] == mp[i as int]);
                        assert(mp.skip(i as int).drop_first() =~= mp.skip(i as int + 1));
                    }
                    let ghost old_params = params_model(extracted@);
                    match &vals[i] {
                        Some(v) => {
                            let ghost vv = v@;
                            proof {
                                assert(groups@[i as int]@ == mp[i as int].0);
                                assert(captures_group(rx.0, normalized@, mp[i as int].0) == Some(
                                    vv,
                                ));
                            }
                            extracted.push(
                                ExtractedParameter::new(v.clone(), map[i].1.clone()),
                            );
                            proof {
                                let rest = extracted_spec(
                                    rx.0,
                                    normalized@,
                                    mp.skip(i as int + 1),
                                );
                                assert(params_model(extracted@) =~= old_params.push(
                                    (vv, mp[i as int].1),
                                ));
                                assert(old_params + (seq![(vv, mp[i as int].1)] + rest)
                                    =~= old_params.push((vv, mp[i as int].1)) + rest);
                            }
                        },
                        None => {
                            proof {
                                assert(groups@[i as int]@ == mp[i as int].0);
                                assert(captures_group(rx.0, normalized@, mp[i as int].0) is None);
                            }
                        },
                    }
                    i = i + 1;
                }
                proof {
                    assert(mp.skip(mp.len() as int) =~= Seq::<(Seq<char>, Seq<char>)>::empty());
                    assert(params_model(extracted@) + Seq::<(Seq<char>, Seq<char>)>::empty()
                        =~= params_model(extracted@));
                }
                Some(extracted)
            },
        }
    }

    /// The values extracted from a line for a template, in map order; empty
    /// when the template does not match the line at all.
    pub fn get_parameter_list(&self, log_template: &str, log_message: &str) -> (r: Vec<String>)
        ensures
            ({
                let rx = template_regex_spec(
                    log_template@,
                    self.masker.rules(),
                    false,
                    self.masker.prefix_view(),
                    self.masker.suffix_view(),
                );
                let normalized = replace_delims(log_message@, self.drain@.extra_delimiters);
                if std_regex_valid(rx.0) && regex_matches(rx.0, normalized) {
                    r.deep_view() == extracted_spec(rx.0, normalized, rx.1).map_values(
                        |p: (Seq<char>, Seq<char>)| p.0,
                    )
                } else {
                    r.deep_view() == Seq::<Seq<char>>::empty()
                }
            }),
    {
        match self.extract_parameters(log_template, log_message, false) {
            Some(params) => {
                let ghost pm = params_model(params@);
                let mut r: Vec<String> = Vec::new();
                let mut i: usize = 0;
                while i < params.len()
                    invariant
                        i <= params@.len(),
                        pm == params_model(params@),
                        pm.len() == params@.len(),
                        r@.len() == i,
                        forall|w: int| 0 <= w < i ==> #[trigger] r@[w]@ == pm[w].0,
                    decreases params@.len() - i,
                {
                    r.push(params[i].value.clone());
                    i = i + 1;
                }
                proof {
                    assert(r.deep_view() =~~= pm.map_values(|p: (Seq<char>, Seq<char>)| p.0));
                }
                r
            },
            None => {
                let r: Vec<String> = Vec::new();
                proof {
                    assert(r.deep_view() =~~= Seq::<Seq<char>>::empty());
                }
                r
            },
        }
    }

    /// The snapshot interval has passed and there is something to save.
    /// (Whether the interval has passed comes from the clock, so only the
    /// dirty-state half is promised.)
    fn should_save_state(&self) -> (r: bool)
        ensures
            r ==> self.state_dirty,
    {
        let now = current_time_sec();
        let elapsed: u64 = if now >= self.last_save_time {
            now - self.last_save_time
        } else {
            0
        };
        let interval = self.config.snapshot_interval_minutes;
        let threshold: u64 = if interval <= u64::MAX / 60 {
            interval * 60
        } else {
            u64::MAX
        };
        elapsed >= threshold && self.state_dirty
    }

    /// Hands the engine's serialized state (the payload built by the
    /// verified encoder) to the persistence collaborator, when one is
    /// attached. A successful save resets the dirty flag and the save time;
    /// a failed one changes neither, so the state stays dirty; with no
    /// collaborator attached the call succeeds and changes nothing but the
    /// save time.
    pub fn save_state(&mut self) -> (r: Result<(), crate::persistence::PersistenceError>)
        ensures
            final(self).drain == old(self).drain,
            final(self).masker == old(self).masker,
            final(self).config == old(self).config,
            (final(self).persistence_handler is Some) == (old(self).persistence_handler is Some),
            old(self).persistence_handler is None ==> r is Ok,
            r is Err ==> old(self).persistence_handler is Some,
            r is Ok ==> final(self).state_dirty == false,
            r is Err ==> final(self).state_dirty == old(self).state_dirty && final(self).last_save_time == old(self).last_save_time,
    {
        let bytes = crate::snapshot::encode_state(&self.drain);
        let mut outcome: Result<(), crate::persistence::PersistenceError> = Ok(());
        match &mut self.persistence_handler {
            Some(h) => {
                outcome = h.save_state(&bytes);
            },
            None => {},
        }
        match &outcome {
            Ok(_) => {
                self.last_save_time = current_time_sec();
                self.state_dirty = false;
            },
            Err(_) => {},
        }
        outcome
    }
}

} // verus!
