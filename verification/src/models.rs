//! The request and response shapes exchanged with the completion API, and
//! their mathematical views.

use vstd::prelude::*;
use crate::numerals::is_valid_number;
use crate::utils::chars_of;
use crate::numerals::check_number_chars;

verus! {

/// A sampling parameter held as a plain decimal numeral, e.g. `0.9` or
/// `-1.05`: an optional minus sign, digits, an optional fraction. Holding
/// the numeral itself keeps the parameter exact and lets the JSON encoder
/// copy it verbatim.
#[derive(Debug, Clone, PartialEq)]
pub struct Number {
    pub text: String,
}

impl Number {
    /// A well-formed `Number` holds a numeral of the documented shape.
    pub open spec fn wf(&self) -> bool {
        is_valid_number(self.text@)
    }

    /// Accepts exactly the well-shaped numerals.
    pub fn new(text: &str) -> (r: Option<Number>)
        ensures
            match r {
                Some(n) => n.text@ == text@ && n.wf(),
                None => !is_valid_number(text@),
            },
    {
        let v = chars_of(text);
        if check_number_chars(&v) {
            Some(Number { text: String::from_str(text) })
        } else {
            None
        }
    }

    /// A fresh copy with the same numeral.
    pub fn duplicate(&self) -> (r: Number)
        ensures
            r.text@ == self.text@,
    {
        Number { text: self.text.clone() }
    }
}

/// View of the sampling parameters: numerals as character sequences,
/// integers as unbounded integers.
#[verifier::ext_equal]
pub struct SettingsV {
    pub model: Seq<char>,
    pub temperature: Seq<char>,
    pub max_tokens: int,
    pub stream: bool,
    pub presence_penalty: Seq<char>,
    pub frequency_penalty: Seq<char>,
    pub top_p: Seq<char>,
    pub top_k: int,
    pub transforms: Seq<Seq<char>>,
    pub min_p: Seq<char>,
    pub top_a: Seq<char>,
}

impl SettingsV {
    /// Every numeral field is well shaped.
    pub open spec fn wf(&self) -> bool {
        &&& is_valid_number(self.temperature)
        &&& is_valid_number(self.presence_penalty)
        &&& is_valid_number(self.frequency_penalty)
        &&& is_valid_number(self.top_p)
        &&& is_valid_number(self.min_p)
        &&& is_valid_number(self.top_a)
        &&& i32::MIN <= self.max_tokens <= i32::MAX
        &&& i32::MIN <= self.top_k <= i32::MAX
    }
}

/// The model identifier and sampling parameters of a request.
#[derive(Debug, Clone, PartialEq)]
pub struct Settings {
    pub model: String,
    pub temperature: Number,
    pub max_tokens: i32,
    pub stream: bool,
    pub presence_penalty: Number,
    pub frequency_penalty: Number,
    pub top_p: Number,
    pub top_k: i32,
    pub transforms: Vec<String>,
    pub min_p: Number,
    pub top_a: Number,
}

impl View for Settings {
    type V = SettingsV;

    open spec fn view(&self) -> SettingsV {
        SettingsV {
            model: self.model@,
            temperature: self.temperature.text@,
            max_tokens: self.max_tokens as int,
            stream: self.stream,
            presence_penalty: self.presence_penalty.text@,
            frequency_penalty: self.frequency_penalty.text@,
            top_p: self.top_p.text@,
            top_k: self.top_k as int,
            transforms: self.transforms@.map_values(|s: String| s@),
            min_p: self.min_p.text@,
            top_a: self.top_a.text@,
        }
    }
}

/// View of a single role-tagged message.
#[verifier::ext_equal]
pub struct RequestMessageV {
    pub role: Seq<char>,
    pub content: Seq<char>,
}

/// A message sent to the completion API: a role tag plus the text content.
#[derive(Debug, Clone, PartialEq)]
pub struct RequestMessage {
    pub role: String,
    pub content: String,
}

impl View for RequestMessage {
    type V = RequestMessageV;

    open spec fn view(&self) -> RequestMessageV {
        RequestMessageV { role: self.role@, content: self.content@ }
    }
}

impl RequestMessage {
    /// Builds a message from a role tag and its content.
    pub fn new(role: &str, content: String) -> (r: Self)
        ensures
            r@.role == role@,
            r@.content == content@,
    {
        Self { role: String::from_str(role), content }
    }
}

/// View of a whole request.
#[verifier::ext_equal]
pub struct RequestBodyV {
    pub messages: Seq<RequestMessageV>,
    pub settings: SettingsV,
}

impl RequestBodyV {
    pub open spec fn wf(&self) -> bool {
        self.settings.wf()
    }
}

/// The full payload of one completion call: the ordered messages and the
/// sampling parameters.
#[derive(Debug, Clone, PartialEq)]
pub struct RequestBody {
    pub messages: Vec<RequestMessage>,
    pub settings: Settings,
}

impl View for RequestBody {
    type V = RequestBodyV;

    open spec fn view(&self) -> RequestBodyV {
        RequestBodyV {
            messages: self.messages@.map_values(|m: RequestMessage| m@),
            settings: self.settings@,
        }
    }
}

impl RequestBody {
    /// Assembles a request from the sampling parameters and the messages.
    pub fn new(
        model: &str,
        temp: Number,
        max_t: i32,
        stream: bool,
        p_pen: Number,
        f_pen: Number,
        top_p: Number,
        top_k: i32,
        transforms: Vec<String>,
        min_p: Number,
        top_a: Number,
        messages: Vec<RequestMessage>,
    ) -> (r: Self)
        ensures
            r@.messages == messages@.map_values(|m: RequestMessage| m@),
            r@.settings == (SettingsV {
                model: model@,
                temperature: temp.text@,
                max_tokens: max_t as int,
                stream,
                presence_penalty: p_pen.text@,
                frequency_penalty: f_pen.text@,
                top_p: top_p.text@,
                top_k: top_k as int,
                transforms: transforms@.map_values(|s: String| s@),
                min_p: min_p.text@,
                top_a: top_a.text@,
            }),
    {
        Self {
            messages,
            settings: Settings {
                model: String::from_str(model),
                temperature: temp,
                max_tokens: max_t,
                stream,
                presence_penalty: p_pen,
                frequency_penalty: f_pen,
                top_p,
                top_k,
                transforms,
                min_p,
                top_a,
            },
        }
    }
}

/// A reduced request shape: the model identifier and the messages alone.
#[derive(Debug, Clone, PartialEq)]
pub struct RequestMessageBody {
    pub model: String,
    pub messages: Vec<RequestMessage>,
}

/// View of the content of one returned choice.
#[verifier::ext_equal]
pub struct ResponseContentV {
    pub content: Seq<char>,
    pub role: Seq<char>,
}

/// The content of one returned choice.
#[derive(Debug, Clone, PartialEq)]
pub struct ResponseContent {
    pub content: String,
    pub role: String,
}

impl View for ResponseContent {
    type V = ResponseContentV;

    open spec fn view(&self) -> ResponseContentV {
        ResponseContentV { content: self.content@, role: self.role@ }
    }
}

/// View of one returned choice.
#[verifier::ext_equal]
pub struct ResponseMessageV {
    pub message: ResponseContentV,
}

/// One returned choice, wrapping its message.
#[derive(Debug, Clone, PartialEq)]
pub struct ResponseMessage {
    pub message: ResponseContent,
}

impl View for ResponseMessage {
    type V = ResponseMessageV;

    open spec fn view(&self) -> ResponseMessageV {
        ResponseMessageV { message: self.message@ }
    }
}

/// View of a whole completion response.
#[verifier::ext_equal]
pub struct ResponseBodyV {
    pub choices: Seq<ResponseMessageV>,
    pub id: Seq<char>,
    pub model: Seq<char>,
    pub created: int,
    pub object: Seq<char>,
}

/// The body of a completion response; only the first choice is consulted.
#[derive(Debug, Clone, PartialEq)]
pub struct ResponseBody {
    pub choices: Vec<ResponseMessage>,
    pub id: String,
    pub model: String,
    pub created: i64,
    pub object: String,
}

impl View for ResponseBody {
    type V = ResponseBodyV;

    open spec fn view(&self) -> ResponseBodyV {
        ResponseBodyV {
            choices: self.choices@.map_values(|m: ResponseMessage| m@),
            id: self.id@,
            model: self.model@,
            created: self.created as int,
            object: self.object@,
        }
    }
}

} // verus!
