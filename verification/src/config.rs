//! The user's own rules for projects.
use vstd::prelude::*;
use vstd::string::*;

use crate::bytes::{bytes_of, text_bytes};
use crate::env::{variable, HostEnv};
use crate::error::{failure, in_context, path, quote, text, Error, ErrorView, Message};
use crate::glob::{judge, verdict, Verdict, VerdictOf};
use crate::host::{
    config_at, fail, host_error, host_failure, is_file, is_present, outcome, FactsView, HostFacts,
    Stop, StopOf, StopView,
};
use crate::path::{is_absolute, join, HostPath};
use crate::views::views;

verus! {

broadcast use crate::views::group_views;

/// Why there is no configuration to go by, in the host's or the parser's words.
#[derive(Clone, Debug, PartialEq, Eq)]
pub enum ConfigFaultOf<T> {
    Unreadable(T),
    Malformed(T),
}

pub type ConfigFault = ConfigFaultOf<String>;

impl View for ConfigFaultOf<String> {
    type V = ConfigFaultOf<Seq<char>>;

    open spec fn view(&self) -> ConfigFaultOf<Seq<char>> {
        match *self {
            ConfigFaultOf::Unreadable(why) => ConfigFaultOf::Unreadable(why@),
            ConfigFaultOf::Malformed(why) => ConfigFaultOf::Malformed(why@),
        }
    }
}

/// What the user wants of the projects that `path` matches.
#[derive(Debug)]
pub struct ProjectRule {
    pub path: String,
    pub allow_read: Vec<HostPath>,
    pub pass_env: Vec<String>,
    pub strict_mcp: bool,
}

pub struct RuleView {
    pub path: Seq<char>,
    pub allow_read: Seq<Seq<u8>>,
    pub pass_env: Seq<Seq<char>>,
    pub strict_mcp: bool,
}

impl View for ProjectRule {
    type V = RuleView;

    open spec fn view(&self) -> RuleView {
        RuleView {
            path: self.path@,
            allow_read: views(self.allow_read@),
            pass_env: views(self.pass_env@),
            strict_mcp: self.strict_mcp,
        }
    }
}

/// The rules of a configuration file, in order.
#[derive(Debug)]
pub struct UserConfig {
    pub project: Vec<ProjectRule>,
}

impl View for UserConfig {
    type V = Seq<RuleView>;

    open spec fn view(&self) -> Seq<RuleView> {
        views(self.project@)
    }
}

/// What the rules that match a project add up to.
#[derive(Clone, Debug, PartialEq, Eq)]
pub struct UserPolicy {
    pub allow_read: Vec<HostPath>,
    pub pass_env: Vec<Vec<u8>>,
    pub strict_mcp: bool,
}

pub struct PolicyView {
    pub allow_read: Seq<Seq<u8>>,
    pub pass_env: Seq<Seq<u8>>,
    pub strict_mcp: bool,
}

impl View for UserPolicy {
    type V = PolicyView;

    open spec fn view(&self) -> PolicyView {
        PolicyView {
            allow_read: views(self.allow_read@),
            pass_env: views(self.pass_env@),
            strict_mcp: self.strict_mcp,
        }
    }
}

/// The policy of a user who has no rules.
pub open spec fn no_policy() -> PolicyView {
    PolicyView { allow_read: Seq::empty(), pass_env: Seq::empty(), strict_mcp: false }
}

impl Default for UserPolicy {
    fn default() -> (r: UserPolicy)
        ensures
            r@ == no_policy(),
    {
        let r = UserPolicy { allow_read: Vec::new(), pass_env: Vec::new(), strict_mcp: false };
        assert(r@.allow_read =~= Seq::empty());
        assert(r@.pass_env =~= Seq::empty());
        r
    }
}

/// Texts as host words.
pub open spec fn host_words(texts: Seq<Seq<char>>) -> Seq<Seq<u8>> {
    texts.map_values(|t: Seq<char>| bytes_of(t))
}

/// A policy with one more rule in force.
pub open spec fn policy_and(policy: PolicyView, rule: RuleView) -> PolicyView {
    PolicyView {
        allow_read: policy.allow_read + rule.allow_read,
        pass_env: policy.pass_env + host_words(rule.pass_env),
        strict_mcp: policy.strict_mcp || rule.strict_mcp,
    }
}

/// The first path, from the `i`-th on, that is not absolute.
pub open spec fn relative_from(paths: Seq<Seq<u8>>, i: nat) -> Option<Seq<u8>>
    decreases paths.len() - i,
{
    if i >= paths.len() {
        None
    } else if !is_absolute(paths[i as int]) {
        Some(paths[i as int])
    } else {
        relative_from(paths, i + 1)
    }
}

pub open spec fn relative_failure(pattern: Seq<char>, config: Seq<u8>) -> ErrorView {
    failure(
        seq![text("project path pattern "@)].push(quote(pattern)).push(text(" in "@)).push(
            path(config),
        ).push(text(" must be absolute"@)),
    )
}

fn relative_error(pattern: &str, config: &HostPath) -> (r: Error)
    ensures
        r@ == relative_failure(pattern@, config@),
{
    Error::new(
        Message::new("project path pattern ").quote(pattern).text(" in ").path(config).text(
            " must be absolute",
        ),
    )
}

/// Whether a rule is in force, given the verdict on its pattern. A relative
/// pattern is refused, and so is one that is no glob or cannot be compiled.
pub open spec fn judged(
    rule: RuleView,
    config: Seq<u8>,
    verdict: VerdictOf<Seq<char>>,
) -> Result<bool, ErrorView> {
    if !is_absolute(bytes_of(rule.path)) {
        Err(relative_failure(rule.path, config))
    } else {
        match verdict {
            VerdictOf::Relative => Err(relative_failure(rule.path, config)),
            VerdictOf::NoGlob(why) => Err(
                in_context(
                    seq![text("invalid project path pattern "@)].push(quote(rule.path)).push(
                        text(" in "@),
                    ).push(path(config)),
                    host_failure(why),
                ),
            ),
            VerdictOf::TooLarge => Err(
                failure(
                    seq![text("project path pattern "@)].push(quote(rule.path)).push(
                        text(" in "@),
                    ).push(path(config)).push(text(" is too large"@)),
                ),
            ),
            VerdictOf::Answer(matches) => Ok(matches),
        }
    }
}

/// Whether a rule is in force for a project.
pub open spec fn rule_matches(rule: RuleView, config: Seq<u8>, project: Seq<u8>) -> Result<
    bool,
    ErrorView,
> {
    judged(rule, config, verdict(rule.path, project))
}

/// A policy after one rule, given the verdict on its pattern; what the rule
/// allows must be absolute paths.
pub open spec fn after_verdict(
    policy: PolicyView,
    rule: RuleView,
    config: Seq<u8>,
    verdict: VerdictOf<Seq<char>>,
) -> Result<PolicyView, ErrorView> {
    match judged(rule, config, verdict) {
        Err(error) => Err(error),
        Ok(false) => Ok(policy),
        Ok(true) => match relative_from(rule.allow_read, 0) {
            Some(p) => Err(
                failure(
                    seq![text("allow_read path "@)].push(path(p)).push(text(" in "@)).push(
                        path(config),
                    ).push(text(" must be absolute"@)),
                ),
            ),
            None => Ok(policy_and(policy, rule)),
        },
    }
}

/// A policy after one rule.
pub open spec fn after_rule(
    policy: PolicyView,
    rule: RuleView,
    config: Seq<u8>,
    project: Seq<u8>,
) -> Result<PolicyView, ErrorView> {
    after_verdict(policy, rule, config, verdict(rule.path, project))
}

/// A policy after the rules from the `i`-th on.
pub open spec fn after_rules(
    policy: PolicyView,
    rules: Seq<RuleView>,
    config: Seq<u8>,
    project: Seq<u8>,
    i: nat,
) -> Result<PolicyView, ErrorView>
    decreases rules.len() - i,
{
    if i >= rules.len() {
        Ok(policy)
    } else {
        match after_rule(policy, rules[i as int], config, project) {
            Err(error) => Err(error),
            Ok(next) => after_rules(next, rules, config, project, i + 1),
        }
    }
}

fn find_relative<'a>(paths: &'a Vec<HostPath>) -> (r: Option<&'a HostPath>)
    ensures
        match r {
            Some(p) => relative_from(views(paths@), 0) == Some(p@),
            None => relative_from(views(paths@), 0) is None,
        },
{
    let ghost all = views(paths@);
    let mut i: usize = 0;
    while i < paths.len()
        invariant
            i <= paths.len(),
            all == views(paths@),
            relative_from(all, 0) == relative_from(all, i as nat),
        decreases paths.len() - i,
    {
        assert(all[i as int] == paths@[i as int]@);
        if !paths[i].is_absolute() {
            return Some(&paths[i]);
        }
        i += 1;
    }
    assert(all.len() == i);
    None
}

fn apply_rule(policy: &mut UserPolicy, rule: &ProjectRule)
    ensures
        final(policy)@ == policy_and(old(policy)@, rule@),
{
    let ghost before = policy@;
    let ghost allowed = rule@.allow_read;
    let ghost passed = host_words(rule@.pass_env);
    let mut i: usize = 0;
    assert(before.allow_read + allowed.take(0) =~= before.allow_read);
    while i < rule.allow_read.len()
        invariant
            i <= rule.allow_read.len(),
            allowed == views(rule.allow_read@),
            policy@.allow_read == before.allow_read + allowed.take(i as int),
            policy@.pass_env == before.pass_env,
            policy@.strict_mcp == before.strict_mcp,
        decreases rule.allow_read.len() - i,
    {
        assert(allowed[i as int] == rule.allow_read@[i as int]@);
        policy.allow_read.push(rule.allow_read[i].copy());
        assert(policy@.allow_read =~= before.allow_read + allowed.take(i + 1));
        i += 1;
    }
    assert(allowed.take(allowed.len() as int) =~= allowed);
    i = 0;
    assert(before.pass_env + passed.take(0) =~= before.pass_env);
    while i < rule.pass_env.len()
        invariant
            i <= rule.pass_env.len(),
            passed == host_words(views(rule.pass_env@)),
            policy@.allow_read == before.allow_read + allowed,
            policy@.pass_env == before.pass_env + passed.take(i as int),
            policy@.strict_mcp == before.strict_mcp,
        decreases rule.pass_env.len() - i,
    {
        assert(passed[i as int] == bytes_of(rule.pass_env@[i as int]@));
        policy.pass_env.push(text_bytes(rule.pass_env[i].as_str()));
        assert(policy@.pass_env =~= before.pass_env + passed.take(i + 1));
        i += 1;
    }
    assert(passed.take(passed.len() as int) =~= passed);
    policy.strict_mcp = policy.strict_mcp || rule.strict_mcp;
}

/// Takes one rule into a policy, given the verdict on its pattern.
pub fn consider_rule(
    policy: UserPolicy,
    rule: &ProjectRule,
    config: &HostPath,
    verdict: Verdict,
) -> (r: Result<UserPolicy, Error>)
    ensures
        match r {
            Ok(next) => after_verdict(policy@, rule@, config@, verdict@) == Ok::<
                PolicyView,
                ErrorView,
            >(next@),
            Err(error) => after_verdict(policy@, rule@, config@, verdict@) == Err::<
                PolicyView,
                ErrorView,
            >(error@),
        },
{
    let pattern = rule.path.as_str();
    if !HostPath::new(pattern).is_absolute() {
        return Err(relative_error(pattern, config));
    }
    match verdict {
        VerdictOf::Relative => Err(relative_error(pattern, config)),
        VerdictOf::NoGlob(why) => Err(
            host_error(&why).context(
                Message::new("invalid project path pattern ").quote(pattern).text(" in ").path(
                    config,
                ),
            ),
        ),
        VerdictOf::TooLarge => Err(
            Error::new(
                Message::new("project path pattern ").quote(pattern).text(" in ").path(
                    config,
                ).text(" is too large"),
            ),
        ),
        VerdictOf::Answer(false) => Ok(policy),
        VerdictOf::Answer(true) => {
            if let Some(p) = find_relative(&rule.allow_read) {
                return Err(
                    Error::new(
                        Message::new("allow_read path ").path(p).text(" in ").path(config).text(
                            " must be absolute",
                        ),
                    ),
                );
            }
            let mut next = policy;
            apply_rule(&mut next, rule);
            Ok(next)
        },
    }
}

/// What the rules of `config` add up to for a project.
pub fn merge_rules(rules: &UserConfig, config: &HostPath, project: &HostPath) -> (r: Result<
    UserPolicy,
    Error,
>)
    ensures
        match r {
            Ok(policy) => after_rules(no_policy(), rules@, config@, project@, 0) == Ok::<
                PolicyView,
                ErrorView,
            >(policy@),
            Err(error) => after_rules(no_policy(), rules@, config@, project@, 0) == Err::<
                PolicyView,
                ErrorView,
            >(error@),
        },
{
    let ghost all = rules@;
    let ghost whole = after_rules(no_policy(), all, config@, project@, 0);
    let mut policy = UserPolicy::default();
    let mut i: usize = 0;
    while i < rules.project.len()
        invariant
            i <= rules.project.len(),
            all == views(rules.project@),
            all == rules@,
            whole == after_rules(no_policy(), all, config@, project@, 0),
            whole == after_rules(policy@, all, config@, project@, i as nat),
        decreases rules.project.len() - i,
    {
        let rule = &rules.project[i];
        assert(all[i as int] == rule@);
        let verdict = judge(rule.path.as_str(), project.bytes.as_slice());
        match consider_rule(policy, rule, config, verdict) {
            Err(error) => {
                return Err(error);
            },
            Ok(next) => {
                policy = next;
            },
        }
        i += 1;
    }
    assert(all.len() == i);
    Ok(policy)
}

/// The policy that the configuration file `config` gives for a project. Without
/// the file there are no rules.
pub open spec fn policy_at(facts: FactsView, config: Seq<u8>, project: Seq<u8>) -> Result<
    PolicyView,
    StopView,
> {
    match is_present(facts, config) {
        Err(stop) => Err(stop),
        Ok(false) => Ok(no_policy()),
        Ok(true) => match is_file(facts, config) {
            Err(stop) => Err(stop),
            Ok(false) => fail(
                failure(
                    seq![text("user configuration "@)].push(path(config)).push(
                        text(" must be a regular file"@),
                    ),
                ),
            ),
            Ok(true) => match config_at(facts, config) {
                Err(stop) => Err(stop),
                Ok(Err(ConfigFaultOf::Unreadable(why))) => fail(
                    in_context(
                        seq![text("cannot read user configuration "@)].push(path(config)),
                        host_failure(why),
                    ),
                ),
                Ok(Err(ConfigFaultOf::Malformed(why))) => fail(
                    in_context(
                        seq![text("malformed user configuration "@)].push(path(config)),
                        host_failure(why),
                    ),
                ),
                Ok(Ok(rules)) => match after_rules(no_policy(), rules, config, project, 0) {
                    Err(error) => fail(error),
                    Ok(policy) => Ok(policy),
                },
            },
        },
    }
}

/// Where the user's configuration is kept.
pub open spec fn config_path(xdg: Option<Seq<u8>>, home: Seq<u8>) -> Result<Seq<u8>, ErrorView> {
    match xdg {
        Some(dir) => if is_absolute(dir) {
            Ok(join(dir, bytes_of("sbox/config.toml"@)))
        } else {
            Err(failure(seq![text("XDG_CONFIG_HOME must be an absolute path"@)]))
        },
        None => Ok(join(home, bytes_of(".config/sbox/config.toml"@))),
    }
}

/// Where the user's configuration is kept, `XDG_CONFIG_HOME` having its say.
pub fn user_config_path(home: &HostPath, env: &HostEnv) -> (r: Result<HostPath, Error>)
    ensures
        match r {
            Ok(p) => config_path(variable(env@, bytes_of("XDG_CONFIG_HOME"@)), home@) == Ok::<
                Seq<u8>,
                ErrorView,
            >(p@),
            Err(error) => config_path(variable(env@, bytes_of("XDG_CONFIG_HOME"@)), home@)
                == Err::<Seq<u8>, ErrorView>(error@),
        },
{
    let name = text_bytes("XDG_CONFIG_HOME");
    match env.get(name.as_slice()) {
        Some(value) => {
            let dir = HostPath::from_bytes(value.as_slice());
            if dir.is_absolute() {
                Ok(dir.join_text("sbox/config.toml"))
            } else {
                Err(Error::new(Message::new("XDG_CONFIG_HOME must be an absolute path")))
            }
        },
        None => Ok(home.join_text(".config/sbox/config.toml")),
    }
}

/// The policy that the configuration file `config` gives for a project.
pub fn load_user_policy_at(config: &HostPath, project: &HostPath, host: &HostFacts) -> (r: Result<
    UserPolicy,
    Stop,
>)
    ensures
        outcome(r) == policy_at(host@, config@, project@),
{
    match host.is_present(config) {
        Err(stop) => {
            return Err(stop);
        },
        Ok(false) => {
            return Ok(UserPolicy::default());
        },
        Ok(true) => {},
    }
    match host.is_file(config) {
        Err(stop) => {
            return Err(stop);
        },
        Ok(false) => {
            return Err(
                StopOf::Fail(
                    Error::new(
                        Message::new("user configuration ").path(config).text(
                            " must be a regular file",
                        ),
                    ),
                ),
            );
        },
        Ok(true) => {},
    }
    match host.config(config) {
        Err(stop) => Err(stop),
        Ok(Err(ConfigFaultOf::Unreadable(why))) => Err(
            StopOf::Fail(
                host_error(why).context(
                    Message::new("cannot read user configuration ").path(config),
                ),
            ),
        ),
        Ok(Err(ConfigFaultOf::Malformed(why))) => Err(
            StopOf::Fail(
                host_error(why).context(Message::new("malformed user configuration ").path(config)),
            ),
        ),
        Ok(Ok(rules)) => match merge_rules(rules, config, project) {
            Err(error) => Err(StopOf::Fail(error)),
            Ok(policy) => Ok(policy),
        },
    }
}

/// The user's policy for a project.
pub open spec fn user_policy(
    facts: FactsView,
    vars: Seq<(Seq<u8>, Seq<u8>)>,
    home: Seq<u8>,
    project: Seq<u8>,
) -> Result<PolicyView, StopView> {
    match config_path(variable(vars, bytes_of("XDG_CONFIG_HOME"@)), home) {
        Err(error) => fail(error),
        Ok(config) => policy_at(facts, config, project),
    }
}

pub fn load_user_policy(home: &HostPath, project: &HostPath, env: &HostEnv, host: &HostFacts) -> (r:
    Result<UserPolicy, Stop>)
    ensures
        outcome(r) == user_policy(host@, env@, home@, project@),
{
    match user_config_path(home, env) {
        Err(error) => Err(StopOf::Fail(error)),
        Ok(config) => load_user_policy_at(&config, project, host),
    }
}

/// A rule is in force for a project.
pub open spec fn in_force(rule: RuleView, config: Seq<u8>, project: Seq<u8>) -> bool {
    rule_matches(rule, config, project) == Ok::<bool, ErrorView>(true)
}

/// What is allowed to be read by the rules in force among those from the `i`-th on.
pub open spec fn allowed_from(
    rules: Seq<RuleView>,
    config: Seq<u8>,
    project: Seq<u8>,
    i: nat,
) -> Seq<Seq<u8>>
    decreases rules.len() - i,
{
    if i >= rules.len() {
        Seq::empty()
    } else if in_force(rules[i as int], config, project) {
        rules[i as int].allow_read + allowed_from(rules, config, project, i + 1)
    } else {
        allowed_from(rules, config, project, i + 1)
    }
}

/// The variables passed on by the rules in force among those from the `i`-th on.
pub open spec fn passed_from(
    rules: Seq<RuleView>,
    config: Seq<u8>,
    project: Seq<u8>,
    i: nat,
) -> Seq<Seq<u8>>
    decreases rules.len() - i,
{
    if i >= rules.len() {
        Seq::empty()
    } else if in_force(rules[i as int], config, project) {
        host_words(rules[i as int].pass_env) + passed_from(rules, config, project, i + 1)
    } else {
        passed_from(rules, config, project, i + 1)
    }
}

proof fn lemma_rules_merge(
    policy: PolicyView,
    rules: Seq<RuleView>,
    config: Seq<u8>,
    project: Seq<u8>,
    i: nat,
)
    requires
        i <= rules.len(),
        after_rules(policy, rules, config, project, i) is Ok,
    ensures
        ({
            let merged = after_rules(policy, rules, config, project, i)->Ok_0;
            &&& merged.allow_read == policy.allow_read + allowed_from(rules, config, project, i)
            &&& merged.pass_env == policy.pass_env + passed_from(rules, config, project, i)
            &&& merged.strict_mcp == (policy.strict_mcp || exists|j: int|
                i <= j < rules.len() && in_force(#[trigger] rules[j], config, project)
                    && rules[j].strict_mcp)
        }),
    decreases rules.len() - i,
{
    let merged = after_rules(policy, rules, config, project, i)->Ok_0;
    if i < rules.len() {
        let rule = rules[i as int];
        let next = after_rule(policy, rule, config, project)->Ok_0;
        lemma_rules_merge(next, rules, config, project, i + 1);
        if in_force(rule, config, project) {
            assert(policy.allow_read + rule.allow_read + allowed_from(rules, config, project, i + 1)
                =~= policy.allow_read + allowed_from(rules, config, project, i));
            assert(policy.pass_env + host_words(rule.pass_env) + passed_from(
                rules,
                config,
                project,
                i + 1,
            ) =~= policy.pass_env + passed_from(rules, config, project, i));
        }
        if merged.strict_mcp && !policy.strict_mcp {
            if next.strict_mcp {
                assert(in_force(rules[i as int], config, project) && rules[i as int].strict_mcp);
            } else {
                let j = choose|j: int|
                    i + 1 <= j < rules.len() && in_force(#[trigger] rules[j], config, project)
                        && rules[j].strict_mcp;
                assert(in_force(rules[j], config, project));
            }
        }
    } else {
        assert(policy.allow_read + Seq::<Seq<u8>>::empty() =~= policy.allow_read);
        assert(policy.pass_env + Seq::<Seq<u8>>::empty() =~= policy.pass_env);
    }
}

/// A policy is what the rules in force add up to: their paths and variables in
/// the order of the rules, and strictness if any one of them asks for it.
pub proof fn law_policy_merges_rules_in_force(
    rules: Seq<RuleView>,
    config: Seq<u8>,
    project: Seq<u8>,
)
    requires
        after_rules(no_policy(), rules, config, project, 0) is Ok,
    ensures
        ({
            let merged = after_rules(no_policy(), rules, config, project, 0)->Ok_0;
            &&& merged.allow_read == allowed_from(rules, config, project, 0)
            &&& merged.pass_env == passed_from(rules, config, project, 0)
            &&& merged.strict_mcp == exists|j: int|
                0 <= j < rules.len() && in_force(#[trigger] rules[j], config, project)
                    && rules[j].strict_mcp
        }),
{
    lemma_rules_merge(no_policy(), rules, config, project, 0);
    assert(no_policy().allow_read + allowed_from(rules, config, project, 0) =~= allowed_from(
        rules,
        config,
        project,
        0,
    ));
    assert(no_policy().pass_env + passed_from(rules, config, project, 0) =~= passed_from(
        rules,
        config,
        project,
        0,
    ));
}

proof fn lemma_unmatched_rules(
    policy: PolicyView,
    rules: Seq<RuleView>,
    config: Seq<u8>,
    project: Seq<u8>,
    i: nat,
)
    requires
        i <= rules.len(),
        forall|j: int|
            0 <= j < rules.len() ==> rule_matches(#[trigger] rules[j], config, project) == Ok::<
                bool,
                ErrorView,
            >(false),
    ensures
        after_rules(policy, rules, config, project, i) == Ok::<PolicyView, ErrorView>(policy),
    decreases rules.len() - i,
{
    if i < rules.len() {
        assert(rule_matches(rules[i as int], config, project) == Ok::<bool, ErrorView>(false));
        lemma_unmatched_rules(policy, rules, config, project, i + 1);
    }
}

/// A project that no rule matches is left without a policy.
pub proof fn law_unmatched_rules_change_nothing(
    rules: Seq<RuleView>,
    config: Seq<u8>,
    project: Seq<u8>,
)
    requires
        forall|j: int|
            0 <= j < rules.len() ==> rule_matches(#[trigger] rules[j], config, project) == Ok::<
                bool,
                ErrorView,
            >(false),
    ensures
        after_rules(no_policy(), rules, config, project, 0) == Ok::<PolicyView, ErrorView>(
            no_policy(),
        ),
{
    lemma_unmatched_rules(no_policy(), rules, config, project, 0);
}

/// The user's configuration is kept at `config`: below `XDG_CONFIG_HOME` where that is
/// set, and else in the home.
pub open spec fn is_kept_at(
    vars: Seq<(Seq<u8>, Seq<u8>)>,
    home: Seq<u8>,
    config: Seq<u8>,
) -> bool {
    match variable(vars, bytes_of("XDG_CONFIG_HOME"@)) {
        Some(dir) => is_absolute(dir) && config == join(dir, bytes_of("sbox/config.toml"@)),
        None => config == join(home, bytes_of(".config/sbox/config.toml"@)),
    }
}

/// The file at `config` holds these rules.
pub open spec fn holds_rules(facts: FactsView, config: Seq<u8>, rules: Seq<RuleView>) -> bool {
    &&& is_present(facts, config) == Ok::<bool, StopView>(true)
    &&& is_file(facts, config) == Ok::<bool, StopView>(true)
    &&& config_at(facts, config) matches Ok(Ok(held)) && held == rules
}

/// The pattern of a rule is absolute and matches the project.
pub open spec fn applies(rule: RuleView, project: Seq<u8>) -> bool {
    &&& is_absolute(bytes_of(rule.path))
    &&& verdict(rule.path, project) == VerdictOf::<Seq<char>>::Answer(true)
}

/// The pattern of a rule is absolute and does not match the project.
pub open spec fn passes_by(rule: RuleView, project: Seq<u8>) -> bool {
    &&& is_absolute(bytes_of(rule.path))
    &&& verdict(rule.path, project) == VerdictOf::<Seq<char>>::Answer(false)
}

/// What the rules that apply give, in the order of the rules.
pub open spec fn adds_up(rules: Seq<RuleView>, project: Seq<u8>, policy: PolicyView) -> bool {
    &&& forall|p: Seq<u8>| #[trigger]
        policy.allow_read.contains(p) <==> exists|j: int|
            0 <= j < rules.len() && applies(#[trigger] rules[j], project)
                && rules[j].allow_read.contains(p)
    &&& forall|name: Seq<u8>| #[trigger]
        policy.pass_env.contains(name) <==> exists|j: int, k: int|
            0 <= j < rules.len() && applies(rules[j], project) && 0 <= k < rules[j].pass_env.len()
                && bytes_of(#[trigger] rules[j].pass_env[k]) == name
    &&& policy.strict_mcp <==> exists|j: int|
        0 <= j < rules.len() && applies(#[trigger] rules[j], project) && rules[j].strict_mcp
}

proof fn lemma_rule(rule: RuleView, config: Seq<u8>, project: Seq<u8>)
    ensures
        in_force(rule, config, project) <==> applies(rule, project),
        rule_matches(rule, config, project) == Ok::<bool, ErrorView>(false) <==> passes_by(
            rule,
            project,
        ),
{
}

proof fn lemma_allowed(
    rules: Seq<RuleView>,
    config: Seq<u8>,
    project: Seq<u8>,
    i: nat,
    p: Seq<u8>,
)
    ensures
        allowed_from(rules, config, project, i).contains(p) <==> exists|j: int|
            i <= j < rules.len() && applies(#[trigger] rules[j], project)
                && rules[j].allow_read.contains(p),
    decreases rules.len() - i,
{
    if i < rules.len() {
        let rule = rules[i as int];
        let rest = allowed_from(rules, config, project, i + 1);
        let all = allowed_from(rules, config, project, i);
        lemma_allowed(rules, config, project, i + 1, p);
        lemma_rule(rule, config, project);
        if applies(rule, project) {
            if all.contains(p) {
                let k = all.index_of(p);
                if k < rule.allow_read.len() {
                    assert(rule.allow_read[k] == p);
                } else {
                    assert(rest[k - rule.allow_read.len()] == p);
                }
            }
            if rule.allow_read.contains(p) {
                assert(all[rule.allow_read.index_of(p)] == p);
            }
            if rest.contains(p) {
                assert(all[rule.allow_read.len() + rest.index_of(p)] == p);
            }
        }
    }
}

proof fn lemma_passed(
    rules: Seq<RuleView>,
    config: Seq<u8>,
    project: Seq<u8>,
    i: nat,
    name: Seq<u8>,
)
    ensures
        passed_from(rules, config, project, i).contains(name) <==> exists|j: int, k: int|
            i <= j < rules.len() && applies(rules[j], project) && 0 <= k < rules[j].pass_env.len()
                && bytes_of(#[trigger] rules[j].pass_env[k]) == name,
    decreases rules.len() - i,
{
    if i < rules.len() {
        let rule = rules[i as int];
        let own = host_words(rule.pass_env);
        let rest = passed_from(rules, config, project, i + 1);
        let all = passed_from(rules, config, project, i);
        lemma_passed(rules, config, project, i + 1, name);
        lemma_rule(rule, config, project);
        if applies(rule, project) {
            if all.contains(name) {
                let k = all.index_of(name);
                if k < own.len() {
                    assert(bytes_of(rules[i as int].pass_env[k]) == name);
                } else {
                    assert(rest[k - own.len()] == name);
                }
            }
            if exists|j: int, k: int|
                i <= j < rules.len() && applies(rules[j], project) && 0 <= k
                    < rules[j].pass_env.len() && bytes_of(#[trigger] rules[j].pass_env[k]) == name {
                let (j, k) = choose|j: int, k: int|
                    i <= j < rules.len() && applies(rules[j], project) && 0 <= k
                        < rules[j].pass_env.len() && bytes_of(#[trigger] rules[j].pass_env[k])
                        == name;
                if j == i {
                    assert(own[k] == name);
                    assert(all[k] == name);
                } else {
                    assert(bytes_of(rules[j].pass_env[k]) == name);
                    assert(all[own.len() + rest.index_of(name)] == name);
                }
            }
        } else if exists|j: int, k: int|
            i <= j < rules.len() && applies(rules[j], project) && 0 <= k < rules[j].pass_env.len()
                && bytes_of(#[trigger] rules[j].pass_env[k]) == name {
            let (j, k) = choose|j: int, k: int|
                i <= j < rules.len() && applies(rules[j], project) && 0 <= k
                    < rules[j].pass_env.len() && bytes_of(#[trigger] rules[j].pass_env[k]) == name;
            assert(j > i);
            assert(bytes_of(rules[j].pass_env[k]) == name);
        }
    }
}

/// What a rule can be refused for: a pattern that is relative, is no glob or cannot be
/// compiled, or, where it applies, a relative path among those it allows.
pub open spec fn is_at_fault(rule: RuleView, project: Seq<u8>) -> bool {
    ||| !applies(rule, project) && !passes_by(rule, project)
    ||| applies(rule, project) && exists|k: int|
        0 <= k < rule.allow_read.len() && !is_absolute(#[trigger] rule.allow_read[k])
}

proof fn lemma_relative(paths: Seq<Seq<u8>>, i: nat)
    ensures
        relative_from(paths, i) is Some <==> exists|k: int|
            i <= k < paths.len() && !is_absolute(#[trigger] paths[k]),
        relative_from(paths, i) matches Some(p) ==> !is_absolute(p),
    decreases paths.len() - i,
{
    if i < paths.len() {
        lemma_relative(paths, i + 1);
        if !is_absolute(paths[i as int]) {
            assert(!is_absolute(paths[i as int]));
        }
    }
}

proof fn lemma_no_fault(
    policy: PolicyView,
    rules: Seq<RuleView>,
    config: Seq<u8>,
    project: Seq<u8>,
    i: nat,
)
    ensures
        after_rules(policy, rules, config, project, i) is Err <==> exists|j: int|
            i <= j < rules.len() && is_at_fault(#[trigger] rules[j], project),
    decreases rules.len() - i,
{
    if i < rules.len() {
        let rule = rules[i as int];
        lemma_rule(rule, config, project);
        lemma_relative(rule.allow_read, 0);
        match after_rule(policy, rule, config, project) {
            Err(_) => {
                assert(is_at_fault(rules[i as int], project));
            },
            Ok(next) => {
                assert(!is_at_fault(rule, project));
                lemma_no_fault(next, rules, config, project, i + 1);
            },
        }
    }
}

/// The policy of a user is what the rules of the configuration add up to that apply to
/// the project, none of which is at fault; a user without a configuration has none.
pub proof fn law_user_policy(
    facts: FactsView,
    vars: Seq<(Seq<u8>, Seq<u8>)>,
    home: Seq<u8>,
    project: Seq<u8>,
    policy: PolicyView,
)
    requires
        user_policy(facts, vars, home, project) == Ok::<PolicyView, StopView>(policy),
    ensures
        exists|config: Seq<u8>| #[trigger]
            is_kept_at(vars, home, config) && ({
                ||| is_present(facts, config) == Ok::<bool, StopView>(false) && adds_up(
                    Seq::empty(),
                    project,
                    policy,
                )
                ||| exists|rules: Seq<RuleView>| #[trigger]
                    holds_rules(facts, config, rules) && adds_up(rules, project, policy)
                        && forall|j: int|
                        0 <= j < rules.len() ==> !is_at_fault(#[trigger] rules[j], project)
            }),
        forall|p: Seq<u8>| #[trigger] policy.allow_read.contains(p) ==> is_absolute(p),
{
    let config = config_path(variable(vars, bytes_of("XDG_CONFIG_HOME"@)), home)->Ok_0;
    assert(is_kept_at(vars, home, config));
    if is_present(facts, config) == Ok::<bool, StopView>(true) {
        let rules = config_at(facts, config)->Ok_0->Ok_0;
        assert(holds_rules(facts, config, rules));
        law_policy_merges_rules_in_force(rules, config, project);
        lemma_no_fault(no_policy(), rules, config, project, 0);
        assert forall|p: Seq<u8>| #[trigger] policy.allow_read.contains(p) <==> exists|j: int|
            0 <= j < rules.len() && applies(#[trigger] rules[j], project)
                && rules[j].allow_read.contains(p) by {
            lemma_allowed(rules, config, project, 0, p);
        }
        assert forall|name: Seq<u8>| #[trigger] policy.pass_env.contains(name) <==> exists|
            j: int,
            k: int,
        |
            0 <= j < rules.len() && applies(rules[j], project) && 0 <= k < rules[j].pass_env.len()
                && bytes_of(#[trigger] rules[j].pass_env[k]) == name by {
            lemma_passed(rules, config, project, 0, name);
        }
        assert(adds_up(rules, project, policy)) by {
            if policy.strict_mcp {
                let j = choose|j: int|
                    0 <= j < rules.len() && in_force(#[trigger] rules[j], config, project)
                        && rules[j].strict_mcp;
                lemma_rule(rules[j], config, project);
                assert(applies(rules[j], project));
            }
            if exists|j: int|
                0 <= j < rules.len() && applies(#[trigger] rules[j], project)
                    && rules[j].strict_mcp {
                let j = choose|j: int|
                    0 <= j < rules.len() && applies(#[trigger] rules[j], project)
                        && rules[j].strict_mcp;
                lemma_rule(rules[j], config, project);
                assert(in_force(rules[j], config, project));
            }
        }
        assert forall|p: Seq<u8>| #[trigger] policy.allow_read.contains(p) implies is_absolute(
            p,
        ) by {
            let j = choose|j: int|
                0 <= j < rules.len() && applies(#[trigger] rules[j], project)
                    && rules[j].allow_read.contains(p);
            assert(!is_at_fault(rules[j], project));
            assert(is_absolute(rules[j].allow_read[rules[j].allow_read.index_of(p)]));
        }
    } else {
        assert(adds_up(Seq::empty(), project, policy));
    }
}

/// A policy is refused only where the place of the configuration is relative, where
/// what is there is no regular file or cannot be read as a configuration, or where one
/// of its rules is at fault.
pub proof fn law_user_policy_is_owed(
    facts: FactsView,
    vars: Seq<(Seq<u8>, Seq<u8>)>,
    home: Seq<u8>,
    project: Seq<u8>,
)
    requires
        user_policy(facts, vars, home, project) matches Err(StopOf::Fail(_)),
    ensures
        (variable(vars, bytes_of("XDG_CONFIG_HOME"@)) matches Some(dir) && !is_absolute(dir))
            || exists|config: Seq<u8>| #[trigger]
            is_kept_at(vars, home, config) && is_present(facts, config) == Ok::<bool, StopView>(
                true,
            ) && ({
                ||| is_file(facts, config) == Ok::<bool, StopView>(false)
                ||| config_at(facts, config) matches Ok(Err(_))
                ||| exists|rules: Seq<RuleView>, j: int|
                    #![trigger holds_rules(facts, config, rules), rules[j]]
                    holds_rules(facts, config, rules) && 0 <= j < rules.len() && is_at_fault(
                        rules[j],
                        project,
                    )
            }),
{
    if let Ok(config) = config_path(variable(vars, bytes_of("XDG_CONFIG_HOME"@)), home) {
        assert(is_kept_at(vars, home, config));
        if let Ok(Ok(rules)) = config_at(facts, config) {
            if is_file(facts, config) == Ok::<bool, StopView>(true) {
                assert(holds_rules(facts, config, rules));
                lemma_no_fault(no_policy(), rules, config, project, 0);
                let j = choose|j: int|
                    0 <= j < rules.len() && is_at_fault(#[trigger] rules[j], project);
                assert(is_at_fault(rules[j], project));
            }
        }
    }
}

} // verus!
