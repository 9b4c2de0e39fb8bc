//! Provider resolver: maps a provider name to its connection parameters, and
//! splits a `provider/model` identifier into its two halves.

use vstd::prelude::*;

use crate::escaping::find_char;
use crate::escaping::find_char_from;
use crate::escaping::str_equal;

verus! {

/// Connection parameters of one provider.
#[derive(Debug, Clone)]
pub struct Provider {
    pub name: String,
    pub api_url: String,
    pub env_var: String,
    pub extra_headers: Vec<(String, String)>,
}

/// Mathematical image of a `Provider`.
pub struct ProviderView {
    pub name: Seq<char>,
    pub api_url: Seq<char>,
    pub env_var: Seq<char>,
    pub extra_headers: Seq<(Seq<char>, Seq<char>)>,
}

impl View for Provider {
    type V = ProviderView;

    open spec fn view(&self) -> ProviderView {
        ProviderView {
            name: self.name@,
            api_url: self.api_url@,
            env_var: self.env_var@,
            extra_headers: self.extra_headers@.map_values(|h: (String, String)| (h.0@, h.1@)),
        }
    }
}

/// The OpenAI endpoint.
pub open spec fn openai_provider() -> ProviderView {
    ProviderView {
        name: "openai"@,
        api_url: "https://api.openai.com/v1/chat/completions"@,
        env_var: "OPENAI_API_KEY"@,
        extra_headers: Seq::<(Seq<char>, Seq<char>)>::empty(),
    }
}

/// The OpenRouter endpoint, with its attribution headers.
pub open spec fn openrouter_provider() -> ProviderView {
    ProviderView {
        name: "openrouter"@,
        api_url: "https://openrouter.ai/api/v1/chat/completions"@,
        env_var: "OPENROUTER_API_KEY"@,
        extra_headers: seq![
            ("HTTP-Referer"@, "https://github.com/hinata-team/hinata-lang"@),
            ("X-Title"@, "Hinata-LLM"@),
        ],
    }
}

/// The DeepSeek endpoint.
pub open spec fn deepseek_provider() -> ProviderView {
    ProviderView {
        name: "deepseek"@,
        api_url: "https://api.deepseek.com/chat/completions"@,
        env_var: "DEEPSEEK_API_KEY"@,
        extra_headers: Seq::<(Seq<char>, Seq<char>)>::empty(),
    }
}

/// The Google endpoint.
pub open spec fn google_provider() -> ProviderView {
    ProviderView {
        name: "google"@,
        api_url: "https://generativelanguage.googleapis.com/v1beta/openai/chat/completions"@,
        env_var: "GOOGLE_API_KEY"@,
        extra_headers: Seq::<(Seq<char>, Seq<char>)>::empty(),
    }
}

/// The provider a name resolves to, if any.
pub open spec fn spec_find_provider(name: Seq<char>) -> Option<ProviderView> {
    if name == "openai"@ {
        Some(openai_provider())
    } else if name == "openrouter"@ {
        Some(openrouter_provider())
    } else if name == "deepseek"@ {
        Some(deepseek_provider())
    } else if name == "google"@ {
        Some(google_provider())
    } else {
        None
    }
}

/// Resolves a provider name to its connection parameters; an unknown name is
/// a configuration error left to the caller.
pub fn find_provider(name: &str) -> (r: Option<Provider>)
    ensures
        match r {
            Some(p) => spec_find_provider(name@) == Some(p@),
            None => spec_find_provider(name@) is None,
        },
{
    if str_equal(name, "openai") {
        let p = Provider {
            name: String::from_str("openai"),
            api_url: String::from_str("https://api.openai.com/v1/chat/completions"),
            env_var: String::from_str("OPENAI_API_KEY"),
            extra_headers: Vec::new(),
        };
        proof {
            assert(p@.extra_headers =~= openai_provider().extra_headers);
        }
        Some(p)
    } else if str_equal(name, "openrouter") {
        let mut headers: Vec<(String, String)> = Vec::new();
        headers.push(
            (
                String::from_str("HTTP-Referer"),
                String::from_str("https://github.com/hinata-team/hinata-lang"),
            ),
        );
        headers.push((String::from_str("X-Title"), String::from_str("Hinata-LLM")));
        let p = Provider {
            name: String::from_str("openrouter"),
            api_url: String::from_str("https://openrouter.ai/api/v1/chat/completions"),
            env_var: String::from_str("OPENROUTER_API_KEY"),
            extra_headers: headers,
        };
        proof {
            assert(p@.extra_headers =~= openrouter_provider().extra_headers);
        }
        Some(p)
    } else if str_equal(name, "deepseek") {
        let p = Provider {
            name: String::from_str("deepseek"),
            api_url: String::from_str("https://api.deepseek.com/chat/completions"),
            env_var: String::from_str("DEEPSEEK_API_KEY"),
            extra_headers: Vec::new(),
        };
        proof {
            assert(p@.extra_headers =~= deepseek_provider().extra_headers);
        }
        Some(p)
    } else if str_equal(name, "google") {
        let p = Provider {
            name: String::from_str("google"),
            api_url: String::from_str(
                "https://generativelanguage.googleapis.com/v1beta/openai/chat/completions",
            ),
            env_var: String::from_str("GOOGLE_API_KEY"),
            extra_headers: Vec::new(),
        };
        proof {
            assert(p@.extra_headers =~= google_provider().extra_headers);
        }
        Some(p)
    } else {
        None
    }
}

/// The placeholder an endpoint template may hold for the model name.
pub open spec fn model_slot() -> Seq<char> {
    "{model}"@
}

/// The endpoint template with every placeholder replaced by the model name,
/// left to right; replaced text is not rescanned.
pub open spec fn fill_template(url: Seq<char>, model: Seq<char>) -> Seq<char>
    decreases url.len(),
    via fill_template_dec
{
    match crate::compile::find_seq_from(url, model_slot(), 0) {
        None => url,
        Some(i) => url.take(i as int) + model + fill_template(
            url.skip(i as int + model_slot().len() as int),
            model,
        ),
    }
}

#[via_fn]
proof fn fill_template_dec(url: Seq<char>, model: Seq<char>) {
    reveal_strlit("{model}");
    crate::compile::lemma_find_seq_from(url, model_slot(), 0);
}

/// Expands a provider's endpoint template for one model name.
pub fn endpoint_url(url: &str, model: &str) -> (r: String)
    ensures
        r@ == fill_template(url@, model@),
{
    let slot = "{model}";
    let m: usize = slot.unicode_len();
    let n: usize = url.unicode_len();
    let mut out = String::new();
    let mut pos: usize = 0;
    proof {
        reveal_strlit("{model}");
        assert(url@.skip(0) =~= url@);
    }
    loop
        invariant
            pos <= n,
            n == url@.len(),
            m == model_slot().len(),
            m >= 1,
            fill_template(url@, model@) == out@ + fill_template(url@.skip(pos as int), model@),
        decreases n - pos,
    {
        let ghost suffix = url@.skip(pos as int);
        proof {
            crate::compile::lemma_find_seq_shift(url@, model_slot(), pos as nat, 0);
            crate::compile::lemma_find_seq_from(url@, model_slot(), pos as nat);
        }
        match crate::compile::find_str(url, "{model}", pos) {
            None => {
                let tail = url.substring_char(pos, n);
                proof {
                    assert(tail@ =~= suffix);
                }
                out.append(tail);
                return out;
            },
            Some(i_abs) => {
                let piece = url.substring_char(pos, i_abs);
                proof {
                    assert(piece@ =~= suffix.take(i_abs - pos));
                    assert(suffix.skip(i_abs - pos + m) =~= url@.skip(i_abs as int + m as int));
                }
                let ghost out0 = out@;
                out.append(piece);
                out.append(model);
                proof {
                    assert(out0 + (suffix.take(i_abs - pos) + model@ + fill_template(
                        url@.skip(i_abs as int + m as int),
                        model@,
                    )) =~= out@ + fill_template(url@.skip(i_abs as int + m as int), model@));
                }
                pos = i_abs + m;
            },
        }
    }
}

/// Splits a `provider/model` identifier at its first slash; a bare model name
/// belongs to the default provider.
pub fn split_model_name(model: &str) -> (r: (String, String))
    ensures
        match find_char_from(model@, '/', 0) {
            Some(i) => r.0@ == model@.take(i as int) && r.1@ == model@.skip(i as int + 1),
            None => r.0@ == "openrouter"@ && r.1@ == model@,
        },
{
    proof {
        crate::escaping::lemma_find_char_from(model@, '/', 0);
    }
    let n: usize = model.unicode_len();
    match find_char(model, '/', 0) {
        Some(i) => {
            let before = model.substring_char(0, i);
            let after = model.substring_char(i + 1, n);
            proof {
                assert(before@ =~= model@.take(i as int));
                assert(after@ =~= model@.skip(i as int + 1));
            }
            (String::from_str(before), String::from_str(after))
        },
        None => (String::from_str("openrouter"), String::from_str(model)),
    }
}

} // verus!
