//! The prompt template and the request builder: placeholder substitution
//! in the persona and scenario strings, and the assembly of the three
//! role-tagged segments of a completion request.

use vstd::prelude::*;
use crate::models::{Number, RequestBody, RequestMessage, SettingsV};
use crate::utils::{
    chars_of, clone_strings, format_msg, match_at, occurs, occurs_at, push_all, spec_format_msg,
    string_from_chars,
};

verus! {

/// The placeholder that the invoking user's display name replaces.
pub open spec fn user_pat() -> Seq<char> {
    seq!['{', '{', 'u', 's', 'e', 'r', '}', '}']
}

/// The placeholder that the bot's display name replaces.
pub open spec fn char_pat() -> Seq<char> {
    seq!['{', '{', 'c', 'h', 'a', 'r', '}', '}']
}

/// A double opening brace, the start of either placeholder.
pub open spec fn dbrace() -> Seq<char> {
    seq!['{', '{']
}

/// One left-to-right pass over the template: each placeholder met is
/// replaced by the matching name, every other character is copied. The
/// inserted names are never rescanned.
pub open spec fn spec_subst(t: Seq<char>, u: Seq<char>, c: Seq<char>) -> Seq<char>
    decreases t.len(),
{
    if t.len() == 0 {
        t
    } else if t.len() >= 8 && t.take(8) == user_pat() {
        u + spec_subst(t.skip(8), u, c)
    } else if t.len() >= 8 && t.take(8) == char_pat() {
        c + spec_subst(t.skip(8), u, c)
    } else {
        seq![t[0]] + spec_subst(t.skip(1), u, c)
    }
}

/// True when `s` holds no brace at all.
pub open spec fn brace_free(s: Seq<char>) -> bool {
    forall|i: int| 0 <= i < s.len() ==> s[i] != '{' && s[i] != '}'
}

/// True when every double opening brace in `t` starts a placeholder.
pub open spec fn guarded(t: Seq<char>) -> bool {
    forall|i: int|
        occurs_at(t, dbrace(), i) ==> occurs_at(t, user_pat(), i) || occurs_at(t, char_pat(), i)
}

proof fn lemma_guarded_skip(t: Seq<char>, k: int)
    requires
        guarded(t),
        0 <= k <= t.len(),
    ensures
        guarded(t.skip(k)),
{
    let r = t.skip(k);
    assert forall|i: int|
        occurs_at(r, dbrace(), i) implies occurs_at(r, user_pat(), i) || occurs_at(
        r,
        char_pat(),
        i,
    ) by {
        assert(occurs_at(t, dbrace(), i + k)) by {
            assert(t.subrange(i + k, i + k + 2) =~= r.subrange(i, i + 2));
        }
        if occurs_at(t, user_pat(), i + k) {
            assert(occurs_at(r, user_pat(), i)) by {
                assert(r.subrange(i, i + 8) =~= t.subrange(i + k, i + k + 8));
            }
        } else {
            assert(occurs_at(t, char_pat(), i + k));
            assert(occurs_at(r, char_pat(), i)) by {
                assert(r.subrange(i, i + 8) =~= t.subrange(i + k, i + k + 8));
            }
        }
    }
}

/// Core of the no-placeholder-left law: on a guarded template, with
/// brace-free names, the substituted text holds no double opening brace;
/// and it can only open with a brace where the template did.
proof fn lemma_subst_aux(t: Seq<char>, u: Seq<char>, c: Seq<char>)
    requires
        brace_free(u),
        brace_free(c),
        guarded(t),
    ensures
        !occurs(spec_subst(t, u, c), dbrace()),
        spec_subst(t, u, c).len() > 0 && spec_subst(t, u, c)[0] == '{' ==> t.len() > 0 && t[0]
            == '{',
    decreases t.len(),
{
    let res = spec_subst(t, u, c);
    if t.len() == 0 {
        if occurs(res, dbrace()) {
            let i = choose|i: int| occurs_at(res, dbrace(), i);
        }
    } else if t.len() >= 8 && (t.take(8) == user_pat() || t.take(8) == char_pat()) {
        let name = if t.take(8) == user_pat() {
            u
        } else {
            c
        };
        let s = spec_subst(t.skip(8), u, c);
        lemma_guarded_skip(t, 8);
        lemma_subst_aux(t.skip(8), u, c);
        assert(t[0] == '{') by {
            assert(t.take(8)[0] == t[0]);
        }
        assert(res == name + s);
        if occurs(res, dbrace()) {
            let i = choose|i: int| occurs_at(res, dbrace(), i);
            assert(res[i] == '{' && res[i + 1] == '{') by {
                assert(res.subrange(i, i + 2)[0] == res[i]);
                assert(res.subrange(i, i + 2)[1] == res[i + 1]);
            }
            if i < name.len() {
                assert(res[i] == name[i]);
            } else {
                assert(occurs_at(s, dbrace(), i - name.len())) by {
                    assert(s.subrange(i - name.len(), i - name.len() + 2) =~= res.subrange(
                        i,
                        i + 2,
                    ));
                }
            }
        }
    } else {
        let s = spec_subst(t.skip(1), u, c);
        lemma_guarded_skip(t, 1);
        lemma_subst_aux(t.skip(1), u, c);
        assert(res == seq![t[0]] + s);
        if occurs(res, dbrace()) {
            let i = choose|i: int| occurs_at(res, dbrace(), i);
            assert(res[i] == '{' && res[i + 1] == '{') by {
                assert(res.subrange(i, i + 2)[0] == res[i]);
                assert(res.subrange(i, i + 2)[1] == res[i + 1]);
            }
            if i == 0 {
                assert(res[0] == t[0]);
                assert(res[1] == s[0]);
                assert(t.skip(1).len() > 0 && t.skip(1)[0] == '{');
                assert(t[1] == '{');
                assert(occurs_at(t, dbrace(), 0)) by {
                    assert(t.subrange(0, 2) =~= dbrace());
                }
                if occurs_at(t, user_pat(), 0) {
                    assert(t.take(8) =~= t.subrange(0, 8));
                } else {
                    assert(occurs_at(t, char_pat(), 0));
                    assert(t.take(8) =~= t.subrange(0, 8));
                }
            } else {
                assert(occurs_at(s, dbrace(), i - 1)) by {
                    assert(s.subrange(i - 1, i + 1) =~= res.subrange(i, i + 2));
                }
            }
        }
    }
}

/// On a guarded template with brace-free names, no literal placeholder
/// survives substitution.
pub proof fn lemma_subst_no_placeholder(t: Seq<char>, u: Seq<char>, c: Seq<char>)
    requires
        brace_free(u),
        brace_free(c),
        guarded(t),
    ensures
        !occurs(spec_subst(t, u, c), user_pat()),
        !occurs(spec_subst(t, u, c), char_pat()),
{
    let res = spec_subst(t, u, c);
    lemma_subst_aux(t, u, c);
    if occurs(res, user_pat()) {
        let i = choose|i: int| occurs_at(res, user_pat(), i);
        assert(occurs_at(res, dbrace(), i)) by {
            assert(user_pat().subrange(0, 2) =~= dbrace());
            assert(res.subrange(i, i + 2) =~= res.subrange(i, i + 8).subrange(0, 2));
        }
    }
    if occurs(res, char_pat()) {
        let i = choose|i: int| occurs_at(res, char_pat(), i);
        assert(occurs_at(res, dbrace(), i)) by {
            assert(char_pat().subrange(0, 2) =~= dbrace());
            assert(res.subrange(i, i + 2) =~= res.subrange(i, i + 8).subrange(0, 2));
        }
    }
}

/// Wherever the user placeholder occurred in the template, the user's
/// name stands in the substituted text.
pub proof fn lemma_subst_inserts_user(t: Seq<char>, u: Seq<char>, c: Seq<char>)
    requires
        occurs(t, user_pat()),
    ensures
        occurs(spec_subst(t, u, c), u),
    decreases t.len(),
{
    let res = spec_subst(t, u, c);
    let i = choose|i: int| occurs_at(t, user_pat(), i);
    assert(forall|j: int| 0 <= j < 8 ==> t[i + j] == user_pat()[j]) by {
        assert(forall|j: int|
            0 <= j < 8 ==> #[trigger] t.subrange(i, i + 8)[j] == t[i + j]);
    }
    if t.len() >= 8 && t.take(8) == user_pat() {
        let s = spec_subst(t.skip(8), u, c);
        assert(occurs_at(res, u, 0)) by {
            assert(res.subrange(0, u.len() as int) =~= u);
        }
    } else if t.len() >= 8 && t.take(8) == char_pat() {
        assert(forall|j: int| 0 <= j < 8 ==> t[j] == char_pat()[j]) by {
            assert(forall|j: int|
                0 <= j < 8 ==> #[trigger] t.take(8)[j] == t[j]);
        }
        assert(i != 0) by {
            if i == 0 {
                assert(t[2] == user_pat()[2] && t[2] == char_pat()[2]);
            }
        }
        assert(i >= 8) by {
            if i == 1 {
                assert(t[2] == user_pat()[1] && t[2] == char_pat()[2]);
            }
            if 2 <= i < 8 {
                assert(t[i] == user_pat()[0] && t[i] == char_pat()[i]);
            }
        }
        assert(occurs_at(t.skip(8), user_pat(), i - 8)) by {
            assert(t.skip(8).subrange(i - 8, i - 8 + 8) =~= t.subrange(i, i + 8));
        }
        lemma_subst_inserts_user(t.skip(8), u, c);
        let s = spec_subst(t.skip(8), u, c);
        let j = choose|j: int| occurs_at(s, u, j);
        assert(occurs_at(res, u, c.len() + j)) by {
            assert(res.subrange(c.len() + j, c.len() + j + u.len() as int) =~= s.subrange(
                j,
                j + u.len() as int,
            ));
        }
    } else {
        assert(i != 0) by {
            if i == 0 {
                assert(t.take(8) =~= t.subrange(0, 8));
            }
        }
        assert(occurs_at(t.skip(1), user_pat(), i - 1)) by {
            assert(t.skip(1).subrange(i - 1, i - 1 + 8) =~= t.subrange(i, i + 8));
        }
        lemma_subst_inserts_user(t.skip(1), u, c);
        let s = spec_subst(t.skip(1), u, c);
        let j = choose|j: int| occurs_at(s, u, j);
        assert(occurs_at(res, u, 1 + j)) by {
            assert(res.subrange(1 + j, 1 + j + u.len() as int) =~= s.subrange(
                j,
                j + u.len() as int,
            ));
        }
    }
}

/// Wherever the bot placeholder occurred in the template, the bot's name
/// stands in the substituted text.
pub proof fn lemma_subst_inserts_char(t: Seq<char>, u: Seq<char>, c: Seq<char>)
    requires
        occurs(t, char_pat()),
    ensures
        occurs(spec_subst(t, u, c), c),
    decreases t.len(),
{
    let res = spec_subst(t, u, c);
    let i = choose|i: int| occurs_at(t, char_pat(), i);
    assert(forall|j: int| 0 <= j < 8 ==> t[i + j] == char_pat()[j]) by {
        assert(forall|j: int|
            0 <= j < 8 ==> #[trigger] t.subrange(i, i + 8)[j] == t[i + j]);
    }
    if t.len() >= 8 && t.take(8) == char_pat() {
        let s = spec_subst(t.skip(8), u, c);
        assert(occurs_at(res, c, 0)) by {
            assert(res.subrange(0, c.len() as int) =~= c);
        }
    } else if t.len() >= 8 && t.take(8) == user_pat() {
        assert(forall|j: int| 0 <= j < 8 ==> t[j] == user_pat()[j]) by {
            assert(forall|j: int|
                0 <= j < 8 ==> #[trigger] t.take(8)[j] == t[j]);
        }
        assert(i != 0) by {
            if i == 0 {
                assert(t[2] == char_pat()[2] && t[2] == user_pat()[2]);
            }
        }
        assert(i >= 8) by {
            if i == 1 {
                assert(t[2] == char_pat()[1] && t[2] == user_pat()[2]);
            }
            if 2 <= i < 8 {
                assert(t[i] == char_pat()[0] && t[i] == user_pat()[i]);
            }
        }
        assert(occurs_at(t.skip(8), char_pat(), i - 8)) by {
            assert(t.skip(8).subrange(i - 8, i - 8 + 8) =~= t.subrange(i, i + 8));
        }
        lemma_subst_inserts_char(t.skip(8), u, c);
        let s = spec_subst(t.skip(8), u, c);
        let j = choose|j: int| occurs_at(s, c, j);
        assert(occurs_at(res, c, u.len() + j)) by {
            assert(res.subrange(u.len() + j, u.len() + j + c.len() as int) =~= s.subrange(
                j,
                j + c.len() as int,
            ));
        }
    } else {
        assert(i != 0) by {
            if i == 0 {
                assert(t.take(8) =~= t.subrange(0, 8));
            }
        }
        assert(occurs_at(t.skip(1), char_pat(), i - 1)) by {
            assert(t.skip(1).subrange(i - 1, i - 1 + 8) =~= t.subrange(i, i + 8));
        }
        lemma_subst_inserts_char(t.skip(1), u, c);
        let s = spec_subst(t.skip(1), u, c);
        let j = choose|j: int| occurs_at(s, c, j);
        assert(occurs_at(res, c, 1 + j)) by {
            assert(res.subrange(1 + j, 1 + j + c.len() as int) =~= s.subrange(
                j,
                j + c.len() as int,
            ));
        }
    }
}

fn user_pat_chars() -> (v: Vec<char>)
    ensures
        v@ == user_pat(),
{
    let mut v: Vec<char> = Vec::new();
    v.push('{');
    v.push('{');
    v.push('u');
    v.push('s');
    v.push('e');
    v.push('r');
    v.push('}');
    v.push('}');
    proof {
        assert(v@ =~= user_pat());
    }
    v
}

fn char_pat_chars() -> (v: Vec<char>)
    ensures
        v@ == char_pat(),
{
    let mut v: Vec<char> = Vec::new();
    v.push('{');
    v.push('{');
    v.push('c');
    v.push('h');
    v.push('a');
    v.push('r');
    v.push('}');
    v.push('}');
    proof {
        assert(v@ =~= char_pat());
    }
    v
}

fn subst_chars(t: &Vec<char>, u: &Vec<char>, c: &Vec<char>) -> (out: Vec<char>)
    ensures
        out@ == spec_subst(t@, u@, c@),
{
    let up = user_pat_chars();
    let cp = char_pat_chars();
    let mut out: Vec<char> = Vec::new();
    let mut i: usize = 0;
    proof {
        assert(t@.skip(0) =~= t@);
        assert(Seq::<char>::empty() + spec_subst(t@, u@, c@) =~= spec_subst(t@, u@, c@));
    }
    while i < t.len()
        invariant
            up@ == user_pat(),
            cp@ == char_pat(),
            i <= t@.len(),
            spec_subst(t@, u@, c@) == out@ + spec_subst(t@.skip(i as int), u@, c@),
        decreases t@.len() - i,
    {
        let ghost rest = t@.skip(i as int);
        let ghost pre = out@;
        if match_at(t, &up, i) {
            proof {
                assert(rest.take(8) =~= t@.subrange(i as int, i + 8));
                assert(rest.skip(8) =~= t@.skip(i + 8));
            }
            push_all(&mut out, u);
            proof {
                assert(pre + (u@ + spec_subst(t@.skip(i + 8), u@, c@)) =~= out@ + spec_subst(
                    t@.skip(i + 8),
                    u@,
                    c@,
                ));
            }
            i += 8;
        } else if match_at(t, &cp, i) {
            proof {
                assert(rest.take(8) =~= t@.subrange(i as int, i + 8));
                if rest.len() >= 8 && rest.take(8) == user_pat() {
                    assert(occurs_at(t@, user_pat(), i as int)) by {
                        assert(t@.subrange(i as int, i + 8) =~= rest.take(8));
                    }
                }
                assert(rest.skip(8) =~= t@.skip(i + 8));
            }
            push_all(&mut out, c);
            proof {
                assert(pre + (c@ + spec_subst(t@.skip(i + 8), u@, c@)) =~= out@ + spec_subst(
                    t@.skip(i + 8),
                    u@,
                    c@,
                ));
            }
            i += 8;
        } else {
            out.push(t[i]);
            proof {
                assert(rest.len() > 0);
                assert(rest[0] == t@[i as int]);
                if rest.len() >= 8 && rest.take(8) == user_pat() {
                    assert(occurs_at(t@, user_pat(), i as int)) by {
                        assert(t@.subrange(i as int, i + 8) =~= rest.take(8));
                    }
                }
                if rest.len() >= 8 && rest.take(8) == char_pat() {
                    assert(occurs_at(t@, char_pat(), i as int)) by {
                        assert(t@.subrange(i as int, i + 8) =~= rest.take(8));
                    }
                }
                assert(rest.skip(1) =~= t@.skip(i + 1));
                assert(pre + (seq![rest[0]] + spec_subst(t@.skip(i + 1), u@, c@)) =~= out@
                    + spec_subst(t@.skip(i + 1), u@, c@));
            }
            i += 1;
        }
    }
    proof {
        assert(t@.skip(t@.len() as int).len() == 0);
        assert(out@ + spec_subst(t@.skip(i as int), u@, c@) =~= out@);
    }
    out
}

/// Substitutes the invoking user's and the bot's display names for the
/// `{{user}}` and `{{char}}` placeholders of a template string, in one
/// left-to-right pass.
pub fn format_prompt(input: &str, user: &str, charname: &str) -> (r: String)
    ensures
        r@ == spec_subst(input@, user@, charname@),
{
    let t = chars_of(input);
    let u = chars_of(user);
    let c = chars_of(charname);
    let out = subst_chars(&t, &u, &c);
    string_from_chars(&out)
}

/// The bot's persona: its name and the two template strings.
#[derive(Debug, Clone, PartialEq)]
pub struct BotProps {
    pub name: String,
    pub description: String,
    pub scenario: String,
}

/// View of the persona strings.
#[verifier::ext_equal]
pub struct BotPropsV {
    pub name: Seq<char>,
    pub description: Seq<char>,
    pub scenario: Seq<char>,
}

impl View for BotProps {
    type V = BotPropsV;

    open spec fn view(&self) -> BotPropsV {
        BotPropsV {
            name: self.name@,
            description: self.description@,
            scenario: self.scenario@,
        }
    }
}

/// The sampling-parameter block of the template file; it carries the same
/// fields as the request's `Settings`.
#[derive(Debug, Clone, PartialEq)]
pub struct SystemProps {
    pub model: String,
    pub temperature: Number,
    pub max_tokens: i32,
    pub stream: bool,
    pub presence_penalty: Number,
    pub frequency_penalty: Number,
    pub top_p: Number,
    pub top_k: i32,
    pub transforms: Vec<String>,
    pub min_p: Number,
    pub top_a: Number,
}

impl View for SystemProps {
    type V = SettingsV;

    open spec fn view(&self) -> SettingsV {
        SettingsV {
            model: self.model@,
            temperature: self.temperature.text@,
            max_tokens: self.max_tokens as int,
            stream: self.stream,
            presence_penalty: self.presence_penalty.text@,
            frequency_penalty: self.frequency_penalty.text@,
            top_p: self.top_p.text@,
            top_k: self.top_k as int,
            transforms: self.transforms@.map_values(|s: String| s@),
            min_p: self.min_p.text@,
            top_a: self.top_a.text@,
        }
    }
}

/// View of the whole prompt template.
#[verifier::ext_equal]
pub struct PromptV {
    pub bot: BotPropsV,
    pub system: SettingsV,
}

/// The prompt template, read once at startup from the template file by
/// the surrounding program and handed in as a plain value.
#[derive(Debug, Clone, PartialEq)]
pub struct Prompt {
    pub bot: BotProps,
    pub system: SystemProps,
}

impl View for Prompt {
    type V = PromptV;

    open spec fn view(&self) -> PromptV {
        PromptV { bot: self.bot@, system: self.system@ }
    }
}

/// The role tag of the two leading segments.
pub open spec fn role_system() -> Seq<char> {
    seq!['s', 'y', 's', 't', 'e', 'm']
}

/// The role tag of the user segment.
pub open spec fn role_user() -> Seq<char> {
    seq!['u', 's', 'e', 'r']
}

/// Builds the completion request for one inbound message: exactly three
/// segments — the rendered scenario (system), the rendered persona
/// description (system), then the mention-stripped user text (user) — and
/// the sampling parameters copied verbatim from the template.
pub fn construct_body(prompt: &Prompt, author: &str, content: &str, mention: &str) -> (r:
    RequestBody)
    ensures
        r@.messages.len() == 3,
        r@.messages[0].role == role_system(),
        r@.messages[0].content == spec_subst(prompt@.bot.scenario, author@, prompt@.bot.name),
        r@.messages[1].role == role_system(),
        r@.messages[1].content == spec_subst(prompt@.bot.description, author@, prompt@.bot.name),
        r@.messages[2].role == role_user(),
        r@.messages[2].content == spec_format_msg(content@, mention@),
        r@.settings == prompt@.system,
{
    let msg_content = format_msg(content, mention);
    let bot_description = format_prompt(prompt.bot.description.as_str(), author,
        prompt.bot.name.as_str());
    let bot_scenario = format_prompt(prompt.bot.scenario.as_str(), author,
        prompt.bot.name.as_str());
    proof {
        reveal_strlit("system");
        reveal_strlit("user");
        assert("system"@ =~= role_system());
        assert("user"@ =~= role_user());
    }
    let scenario_prompt = RequestMessage::new("system", bot_scenario);
    let personality_prompt = RequestMessage::new("system", bot_description);
    let user_message = RequestMessage::new("user", msg_content);
    let mut messages: Vec<RequestMessage> = Vec::new();
    messages.push(scenario_prompt);
    messages.push(personality_prompt);
    messages.push(user_message);
    let r = RequestBody::new(
        prompt.system.model.as_str(),
        prompt.system.temperature.duplicate(),
        prompt.system.max_tokens,
        prompt.system.stream,
        prompt.system.presence_penalty.duplicate(),
        prompt.system.frequency_penalty.duplicate(),
        prompt.system.top_p.duplicate(),
        prompt.system.top_k,
        clone_strings(&prompt.system.transforms),
        prompt.system.min_p.duplicate(),
        prompt.system.top_a.duplicate(),
        messages,
    );
    proof {
        assert(r@.settings =~= prompt@.system);
    }
    r
}

} // verus!
