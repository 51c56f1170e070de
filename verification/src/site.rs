//! `curl mazu.sh` is an introduction, not a visit: visits happen over SSH.
//! Command-line clients get plain text, browsers a small dark landing page.

use vstd::prelude::*;

use crate::text::{ascii_lower, chars_of, lower_of, range_is, str_is};

verus! {

/// The favicon: the folded hands emoji, drawn by the system font.
pub const FAVICON: &'static str = "<svg xmlns=\"http://www.w3.org/2000/svg\" viewBox=\"0 0 100 100\"><text x=\"50\" y=\"52\" font-size=\"76\" text-anchor=\"middle\" dominant-baseline=\"central\">🙏🏻</text></svg>";

/// The home page for command-line clients.
pub const TEXT_HOME: &'static str = "祭拜媽祖請用 ssh mazu.sh 🙏\n";

/// The home page for browsers.
pub const HTML_HOME: &'static str = r####"<!doctype html>
<html lang="zh-Hant">
<head>
<meta charset="utf-8">
<meta name="viewport" content="width=device-width,initial-scale=1">
<title>在終端祭拜媽祖</title>
<meta name="description" content="賽博媽祖廟，ssh mazu.sh 即可祭拜">
<link rel="icon" href="/favicon.svg">
<style>
  :root { color-scheme: dark; }
  * { box-sizing: border-box; }
  body {
    margin: 0; min-height: 100vh; display: grid; place-items: center;
    background: radial-gradient(120% 120% at 50% 0%, #2a0f0a 0%, #140807 60%);
    color: #f3e2c0; font: 15px/1.7 ui-monospace, SFMono-Regular, Menlo, Consolas, monospace;
    padding: 2rem;
  }
  main { width: 100%; max-width: 640px; }
  h1 { font-size: .9375rem; font-weight: normal; letter-spacing: .05em;
       margin: 0 0 .75rem; color: #e8b923; }
  .cmd {
    display: block; margin: .5rem 0 1.5rem; padding: .8rem 1rem;
    background: #241210; border: 1px solid #4a2a22; border-radius: 8px;
    color: #f3e2c0; overflow-x: auto; white-space: pre-wrap; word-break: break-all;
  }
  .cmd b { color: #74c0c8; font-weight: normal; }
  .cmd a { color: #74c0c8; }
  /* 提示符只做装饰，选中复制时不带上它 */
  .prompt { color: #8a7a63; user-select: none; -webkit-user-select: none; }
  a { color: #e8b923; }
  /* GitHub 按钮固定在页面右上角 */
  .corner { position: fixed; top: 1rem; right: 1rem; }
  /* buttons.js 加载前先藏住 Star 文本，避免闪一下；
     加载后原 <a> 被替换成 iframe（不带此 class）自然显示 */
  .github-button { visibility: hidden; }
  /* 用实体方块字符当光标，比空 span+background 在移动端更稳；
     和 $ 一样只是装饰，选中复制时不该被带上 */
  .cursor {
    color: #e8b923;
    user-select: none; -webkit-user-select: none;
    -webkit-animation: blink 1.1s steps(1) infinite;
    animation: blink 1.1s steps(1) infinite;
  }
  @-webkit-keyframes blink { 50% { opacity: 0; } }
  @keyframes blink { 50% { opacity: 0; } }
</style>
</head>
<body>
  <!-- GitHub 官方 star 按钮，固定右上角，异步加载 -->
  <div class="corner">
    <a class="github-button" href="https://github.com/meloalright/mazu"
       data-icon="octicon-star" data-show-count="true"
       aria-label="Star meloalright/mazu on GitHub">Star</a>
    <noscript><a href="https://github.com/meloalright/mazu">GitHub</a></noscript>
  </div>
  <script async defer src="https://buttons.github.io/buttons.js"></script>
<main>
  <h1>在終端運行如下命令 · 即可祭拜媽祖 🙏</h1>
  <code class="cmd"><span class="prompt">$ </span><b>ssh</b> mazu.sh <span class="cursor">█</span></code>
</main>
</body>
</html>
"####
;

/// Whether `pat` occurs in `s`.
pub open spec fn contains_text(s: Seq<char>, pat: Seq<char>) -> bool {
    exists|i: int| 0 <= i && i + pat.len() <= s.len() && #[trigger] s.subrange(i, i + pat.len()) == pat
}

/// `s` with ASCII letters in lower case.
pub open spec fn lower_text(s: Seq<char>) -> Seq<char> {
    s.map_values(|c: char| ascii_lower(c))
}

/// Whether a user agent is a command-line client: empty, or naming curl,
/// wget, HTTPie, fetch or PowerShell in any ASCII case.
pub open spec fn terminal_agent(ua: Seq<char>) -> bool {
    let l = lower_text(ua);
    ||| contains_text(l, "curl"@)
    ||| contains_text(l, "wget"@)
    ||| contains_text(l, "httpie"@)
    ||| contains_text(l, "fetch"@)
    ||| contains_text(l, "powershell"@)
    ||| ua.len() == 0
}

fn contains_chars(s: &Vec<char>, pat: &str) -> (b: bool)
    ensures
        b == contains_text(s@, pat@),
{
    let p = chars_of(pat);
    if p.len() > s.len() {
        return false;
    }
    let slen = s.len();
    let last = slen - p.len();
    let mut i: usize = 0;
    while i <= last
        invariant
            slen == s@.len(),
            p@ == pat@,
            p@.len() <= s@.len(),
            last == s@.len() - p@.len(),
            i <= last + 1,
            forall|j: int| 0 <= j < i ==> #[trigger] s@.subrange(j, j + p@.len()) != p@,
        decreases s@.len() - i,
    {
        if range_is(s, i, i + p.len(), &p) {
            return true;
        }
        if i == last {
            proof {
                assert forall|j: int| 0 <= j && j + pat@.len() <= s@.len() implies #[trigger] s@.subrange(
                    j,
                    j + pat@.len(),
                ) != pat@ by {
                    assert(j <= i);
                }
            }
            return false;
        }
        i = i + 1;
    }
    proof {
        assert forall|j: int| 0 <= j && j + pat@.len() <= s@.len() implies #[trigger] s@.subrange(
            j,
            j + pat@.len(),
        ) != pat@ by {
            assert(j < i);
        }
    }
    false
}

/// Whether the client is a command-line tool.
pub fn is_terminal(user_agent: &str) -> (b: bool)
    ensures
        b == terminal_agent(user_agent@),
{
    let cs = chars_of(user_agent);
    let mut lower: Vec<char> = Vec::new();
    let mut i: usize = 0;
    while i < cs.len()
        invariant
            cs@ == user_agent@,
            i <= cs@.len(),
            lower@ == lower_text(cs@.take(i as int)),
        decreases cs@.len() - i,
    {
        lower.push(lower_of(cs[i]));
        i = i + 1;
        proof {
            assert(lower@ =~= lower_text(cs@.take(i as int)));
        }
    }
    proof {
        assert(cs@.take(i as int) =~= cs@);
    }
    contains_chars(&lower, "curl") || contains_chars(&lower, "wget") || contains_chars(&lower, "httpie")
        || contains_chars(&lower, "fetch") || contains_chars(&lower, "powershell") || cs.len() == 0
}

/// The landing page for browsers.
pub fn html_home() -> (s: String)
    ensures
        s@ == HTML_HOME@,
{
    String::from_str(HTML_HOME)
}

/// The page for `path` with its status and content type: the home page
/// (text for command-line clients, HTML for browsers), the favicon, the
/// health check, or not found.
pub open spec fn page(path: Seq<char>, user_agent: Seq<char>) -> (u16, Seq<char>, Seq<char>) {
    if path == "/"@ {
        if terminal_agent(user_agent) {
            (200, "text/plain; charset=utf-8"@, TEXT_HOME@)
        } else {
            (200, "text/html; charset=utf-8"@, HTML_HOME@)
        }
    } else if path == "/favicon.svg"@ || path == "/favicon.ico"@ {
        (200, "image/svg+xml; charset=utf-8"@, FAVICON@)
    } else if path == "/healthz"@ {
        (200, "application/json; charset=utf-8"@, "{\"ok\":true}"@)
    } else {
        (404, "text/plain; charset=utf-8"@, "此路無廟\n"@)
    }
}

/// Answers a request for `path` with status, content type and body.
pub fn route(path: &str, user_agent: &str) -> (r: (u16, &'static str, String))
    ensures
        (r.0, r.1@, r.2@) == page(path@, user_agent@),
{
    if str_is(path, "/") {
        if is_terminal(user_agent) {
            (200, "text/plain; charset=utf-8", String::from_str(TEXT_HOME))
        } else {
            (200, "text/html; charset=utf-8", html_home())
        }
    } else if str_is(path, "/favicon.svg") || str_is(path, "/favicon.ico") {
        (200, "image/svg+xml; charset=utf-8", String::from_str(FAVICON))
    } else if str_is(path, "/healthz") {
        (200, "application/json; charset=utf-8", String::from_str("{\"ok\":true}"))
    } else {
        (404, "text/plain; charset=utf-8", String::from_str("此路無廟\n"))
    }
}

} // verus!
