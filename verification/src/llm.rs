//! The planning prompt sent to the language model and the JSON taken from its answer.

use vstd::prelude::*;

use crate::planner_types::OcTaskComplexity;
use crate::text::{
    chars_of, find_from, find_in, lowercased, push_str, rfind_char, rfind_in, string_of_range, to_lowercase,
    trim, trim_bounds,
};

verus! {

/// The opening of the planning prompt.
pub const PROMPT_INTRO: &'static str = "Sen deneyimli bir yazılım PM'isin. Aşağıdaki isteği incele ve bağımsız geliştirme görevlerine ayır.\n\n";

/// The heading of the user's request in the planning prompt.
pub const PROMPT_REQUEST_HEADING: &'static str = "## Kullanıcı İsteği\n\n";

/// The rules and the answer format that close the planning prompt.
pub const PROMPT_RULES: &'static str = "\n\n## Görevin\n\nYukarıdaki isteği net, bağımsız görevlere ayır. Her görev tek bir agent tarafından tamamlanabilir olmalı.\n\nKurallar:\n- Her görev atomik ve net kapsamlı olmalı\n- depends_on: Sadece gerçekten önce bitmesi gereken görevleri yaz (title'larla eşleşmeli)\n- prompt: Agent'ın tam olarak ne yapacağını açıklayan detaylı İngilizce talimat\n- complexity: \"low\" (< 2 saat), \"medium\" (2-8 saat), \"high\" (> 8 saat)\n- Mevcut issue'larla çakışan görev oluşturma\n\nCevabını SADECE geçerli JSON olarak ver, başka açıklama veya metin ekleme:\n{\n  \"tasks\": [\n    {\n      \"title\": \"Kısa ve net başlık\",\n      \"description\": \"Ne yapılacağının özeti\",\n      \"complexity\": \"low|medium|high\",\n      \"prompt\": \"Detailed instructions for the coding agent in English. Explain exactly what files to create/modify, what the expected output is, and any specific implementation details.\",\n      \"depends_on\": []\n    }\n  ]\n}";

/// The heading of the codebase section of the planning prompt.
pub const PROMPT_CONTEXT_HEADING: &'static str = "## Kod Tabanı Bilgileri\n\n";

/// A task as the language model proposes it.
#[derive(Debug, Clone)]
pub struct LlmTask {
    pub title: String,
    pub description: String,
    pub complexity: String,
    /// Detailed instructions for the agent.
    pub prompt: Option<String>,
    /// Titles of the tasks it depends on.
    pub depends_on: Vec<String>,
}

impl LlmTask {
    /// The complexity the model named, read without regard to case; `Medium` when unknown.
    pub fn to_complexity(&self) -> (c: OcTaskComplexity)
        ensures
            c == match OcTaskComplexity::named(lowercased(self.complexity@)) {
                Some(x) => x,
                None => OcTaskComplexity::Medium,
            },
            c.name() == lowercased(self.complexity@) || (c == OcTaskComplexity::Medium
                && OcTaskComplexity::named(lowercased(self.complexity@)) is None),
    {
        let lower = to_lowercase(self.complexity.as_str());
        match OcTaskComplexity::parse(lower.as_str()) {
            Some(x) => x,
            None => OcTaskComplexity::Medium,
        }
    }
}

/// The planner that asks Anthropic's API for tasks.
#[derive(Debug, Clone)]
pub struct AnthropicLlmPlanner {
    pub api_key: String,
}

/// The codebase section of the prompt: present only when the context has more than whitespace.
pub open spec fn context_section(codebase_context: Option<Seq<char>>) -> Seq<char> {
    match codebase_context {
        Some(c) => if trim(c).len() > 0 {
            PROMPT_CONTEXT_HEADING@ + c + "\n\n"@
        } else {
            Seq::empty()
        },
        None => Seq::empty(),
    }
}

/// The planning prompt for a request and an optional codebase summary.
pub open spec fn planning_prompt(user_prompt: Seq<char>, codebase_context: Option<Seq<char>>) -> Seq<char> {
    PROMPT_INTRO@ + context_section(codebase_context) + PROMPT_REQUEST_HEADING@ + user_prompt + PROMPT_RULES@
}

/// The text between the fence that opens at `start` (of width `width`) and the next fence, trimmed.
pub open spec fn fenced_after(t: Seq<char>, start: int, width: int) -> Option<Seq<char>> {
    let after = t.subrange(start + width, t.len() as int);
    match find_from(after, "```"@, 0) {
        Some(e) => Some(trim(after.subrange(0, e))),
        None => None,
    }
}

/// The fenced block that opens at the first occurrence of `fence`, if it is closed.
pub open spec fn fenced_block(t: Seq<char>, fence: Seq<char>) -> Option<Seq<char>> {
    match find_from(t, fence, 0) {
        Some(s) => fenced_after(t, s, fence.len() as int),
        None => None,
    }
}

/// The JSON in a model's answer: a closed ```json block, else a closed ``` block, else the
/// text from the first `{` to the last `}` when that `{` comes before that `}`, else the
/// whole answer trimmed.
pub open spec fn extracted_json(t: Seq<char>) -> Seq<char> {
    if fenced_block(t, "```json"@) is Some {
        fenced_block(t, "```json"@)->0
    } else if fenced_block(t, "```"@) is Some {
        fenced_block(t, "```"@)->0
    } else {
        match (find_from(t, seq!['{'], 0), rfind_char(t, '}')) {
            (Some(s), Some(e)) => if s < e {
                t.subrange(s, e + 1)
            } else {
                trim(t)
            },
            _ => trim(t),
        }
    }
}

/// The closed fenced block opening at `start`, the fence being `width` characters wide.
fn fenced_after_exec(t: &Vec<char>, start: usize, width: usize) -> (r: Option<String>)
    requires
        start + width <= t@.len(),
    ensures
        match r {
            Some(x) => fenced_after(t@, start as int, width as int) == Some(x@),
            None => fenced_after(t@, start as int, width as int) is None,
        },
{
    let fence = chars_of("```");
    let mut after: Vec<char> = Vec::new();
    let n = t.len();
    for i in start + width..n
        invariant
            n == t@.len(),
            start + width <= n,
            after@ == t@.subrange((start + width) as int, i as int),
    {
        after.push(t[i]);
        assert(t@.subrange((start + width) as int, i + 1) =~= after@);
    }
    match find_in(&after, &fence, 0) {
        Some(e) => {
            proof {
                lemma_find_from_bounds(after@, fence@, 0, e as int);
            }
            let mut inner: Vec<char> = Vec::new();
            for i in 0..e
                invariant
                    e <= after@.len(),
                    inner@ == after@.subrange(0, i as int),
            {
                inner.push(after[i]);
                assert(after@.subrange(0, i + 1) =~= inner@);
            }
            let (a, b) = trim_bounds(&inner);
            Some(string_of_range(inner.as_slice(), a, b))
        },
        None => None,
    }
}

/// A position that `find_from` returns lies inside the text.
proof fn lemma_find_from_bounds(h: Seq<char>, n: Seq<char>, i: int, r: int)
    requires
        find_from(h, n, i) == Some(r),
    ensures
        i <= r,
        r + n.len() <= h.len(),
    decreases h.len() + 1 - i,
{
    if !(i < 0 || i + n.len() > h.len()) && !(0 <= i && i + n.len() <= h.len() && h.subrange(i, i + n.len()) == n) {
        lemma_find_from_bounds(h, n, i + 1, r);
    }
}

/// The closed fenced block opening at the first `fence`.
fn fenced_block_exec(t: &Vec<char>, fence: &str) -> (r: Option<String>)
    ensures
        match r {
            Some(x) => fenced_block(t@, fence@) == Some(x@),
            None => fenced_block(t@, fence@) is None,
        },
{
    let f = chars_of(fence);
    match find_in(t, &f, 0) {
        Some(s) => {
            proof {
                lemma_find_from_bounds(t@, f@, 0, s as int);
            }
            fenced_after_exec(t, s, f.len())
        },
        None => None,
    }
}

impl AnthropicLlmPlanner {
    /// A planner that authenticates with `api_key`.
    pub fn new(api_key: String) -> (p: Self)
        ensures
            p.api_key == api_key,
    {
        AnthropicLlmPlanner { api_key }
    }

    /// The planning prompt for a request and an optional codebase summary.
    pub fn build_prompt(user_prompt: &str, codebase_context: Option<&str>) -> (r: String)
        ensures
            r@ == planning_prompt(user_prompt@, match codebase_context {
                Some(c) => Some(c@),
                None => None,
            }),
    {
        let mut s = String::new();
        push_str(&mut s, PROMPT_INTRO);
        match codebase_context {
            Some(c) => {
                let v = chars_of(c);
                let (a, b) = trim_bounds(&v);
                if a < b {
                    push_str(&mut s, PROMPT_CONTEXT_HEADING);
                    push_str(&mut s, c);
                    push_str(&mut s, "\n\n");
                }
            },
            None => {},
        }
        push_str(&mut s, PROMPT_REQUEST_HEADING);
        push_str(&mut s, user_prompt);
        push_str(&mut s, PROMPT_RULES);
        s
    }

    /// The JSON in a model's answer (see `extracted_json`).
    pub fn extract_json(text: &str) -> (r: String)
        ensures
            r@ == extracted_json(text@),
    {
        let t = chars_of(text);
        match fenced_block_exec(&t, "```json") {
            Some(x) => return x,
            None => {},
        }
        match fenced_block_exec(&t, "```") {
            Some(x) => return x,
            None => {},
        }
        let open = chars_of("{");
        assert(open@ =~= seq!['{']) by {
            reveal_strlit("{");
        }
        let first = find_in(&t, &open, 0);
        let last = rfind_in(&t, '}');
        match (first, last) {
            (Some(s), Some(e)) if s < e => {
                proof {
                    lemma_find_from_bounds(t@, open@, 0, s as int);
                    lemma_rfind_bounds(t@, '}', e as int);
                }
                assert(e < t.len());
                string_of_range(t.as_slice(), s, e + 1)
            },
            _ => {
                let (a, b) = trim_bounds(&t);
                string_of_range(t.as_slice(), a, b)
            },
        }
    }
}

/// A position that `rfind_char` returns lies inside the text.
proof fn lemma_rfind_bounds(h: Seq<char>, c: char, r: int)
    requires
        rfind_char(h, c) == Some(r),
    ensures
        0 <= r < h.len(),
    decreases h.len(),
{
    if h.last() != c {
        lemma_rfind_bounds(h.drop_last(), c, r);
    }
}

} // verus!
