//! Opening links: which URLs may leave the editor, and the platform command that
//! opens one.
use vstd::prelude::*;
use vstd::utf8::*;
use vstd::string::*;
use crate::source::find_byte;

verus! {

broadcast use vstd::utf8::group_utf8_lib;

/// The operating system whose URL opener is used.
#[derive(Debug, Clone, Copy, PartialEq, Eq, Structural)]
pub enum Platform {
    MacOs,
    Linux,
    Windows,
    Other,
}

/// A program and its arguments that open a URL.
#[derive(Debug, Clone, PartialEq, Eq)]
pub struct ExternalUrlCommand {
    pub program: &'static str,
    pub args: Vec<String>,
}

/// The ASCII lowercase of a byte.
pub open spec fn ascii_lower(c: u8) -> u8 {
    if 65 <= c <= 90 {
        (c + 32) as u8
    } else {
        c
    }
}

/// `b` equals the lowercase ASCII word `w` when ASCII letters are folded to lowercase.
pub open spec fn folds_to(b: Seq<u8>, w: Seq<u8>) -> bool {
    b.len() == w.len() && forall|i: int| 0 <= i < b.len() ==> ascii_lower(#[trigger] b[i]) == w[i]
}

/// Before the first `:` stands `http` or `https` in any letter case, and right after
/// it stands `//`.
pub open spec fn supported_url(b: Seq<u8>) -> bool {
    exists|i: int|
        0 <= i < b.len() && b[i] == 58u8 && (forall|j: int| 0 <= j < i ==> b[j] != 58u8) && #[trigger] url_scheme_ok(b, i)
}

pub open spec fn url_scheme_ok(b: Seq<u8>, colon: int) -> bool {
    &&& (folds_to(b.subrange(0, colon), seq![104u8, 116u8, 116u8, 112u8]) || folds_to(
        b.subrange(0, colon),
        seq![104u8, 116u8, 116u8, 112u8, 115u8],
    ))
    &&& colon + 3 <= b.len()
    &&& b[colon + 1] == 47u8
    &&& b[colon + 2] == 47u8
}

fn lower(c: u8) -> (r: u8)
    ensures
        r == ascii_lower(c),
{
    if 65u8 <= c && c <= 90u8 {
        c + 32
    } else {
        c
    }
}

fn bytes_fold_to(b: &[u8], end: usize, w: &[u8]) -> (r: bool)
    requires
        end <= b@.len(),
    ensures
        r == folds_to(b@.subrange(0, end as int), w@),
{
    if end != w.len() {
        return false;
    }
    let mut i: usize = 0;
    while i < end
        invariant
            end == w@.len(),
            end <= b@.len(),
            i <= end,
            forall|j: int| 0 <= j < i ==> ascii_lower(#[trigger] b@[j]) == w@[j],
        decreases end - i,
    {
        if lower(b[i]) != w[i] {
            proof {
                assert(ascii_lower(b@.subrange(0, end as int)[i as int]) != w@[i as int]);
            }
            return false;
        }
        i += 1;
    }
    true
}

pub fn is_supported_external_url(url: &str) -> (r: bool)
    ensures
        r == supported_url(encode_utf8(url@)),
{
    let b = url.as_bytes();
    let len = b.len();
    let colon = match find_byte(b, 0, len, 58u8) {
        Some(i) => i,
        None => {
            proof {
                if supported_url(b@) {
                    let i = choose|i: int|
                        0 <= i < b@.len() && b@[i] == 58u8 && (forall|j: int| 0 <= j < i ==> b@[j] != 58u8)
                            && #[trigger] url_scheme_ok(b@, i);
                    assert(b@.subrange(0, len as int)[i] == 58u8);
                }
            }
            return false;
        },
    };
    proof {
        assert forall|j: int| 0 <= j < colon implies b@[j] != 58u8 by {
            assert(b@.subrange(0, colon as int)[j] == b@[j]);
        }
    }
    let http: [u8; 4] = [104u8, 116u8, 116u8, 112u8];
    let https: [u8; 5] = [104u8, 116u8, 116u8, 112u8, 115u8];
    proof {
        assert(http@ =~= seq![104u8, 116u8, 116u8, 112u8]);
        assert(https@ =~= seq![104u8, 116u8, 116u8, 112u8, 115u8]);
    }
    let scheme_ok = bytes_fold_to(b, colon, http.as_slice()) || bytes_fold_to(b, colon, https.as_slice());
    let r = scheme_ok && len - colon >= 3 && b[colon + 1] == 47u8 && b[colon + 2] == 47u8;
    proof {
        if r {
            assert(url_scheme_ok(b@, colon as int));
        }
        if supported_url(b@) {
            let i = choose|i: int|
                0 <= i < b@.len() && b@[i] == 58u8 && (forall|j: int| 0 <= j < i ==> b@[j] != 58u8) && #[trigger] url_scheme_ok(
                    b@,
                    i,
                );
            if i < colon {
                assert(b@[i] != 58u8);
            } else if i > colon {
                assert(b@[colon as int] != 58u8);
            }
        }
    }
    r
}

/// The program that opens a URL on each platform, and its arguments.
pub open spec fn open_command_of(url: Seq<char>, platform: Platform) -> Option<(Seq<char>, Seq<Seq<char>>)> {
    match platform {
        Platform::MacOs => Some((seq!['o', 'p', 'e', 'n'], seq![url])),
        Platform::Linux => Some((seq!['x', 'd', 'g', '-', 'o', 'p', 'e', 'n'], seq![url])),
        Platform::Windows => Some((seq!['c', 'm', 'd'], seq![seq!['/', 'C'], seq!['s', 't', 'a', 'r', 't'], Seq::empty(), url])),
        Platform::Other => None,
    }
}

/// The views of a command's arguments.
pub open spec fn args_view(args: Seq<String>) -> Seq<Seq<char>> {
    args.map_values(|a: String| a@)
}

pub fn platform_open_command(url: &str, platform: Platform) -> (r: Option<ExternalUrlCommand>)
    ensures
        match open_command_of(url@, platform) {
            Some((program, args)) => r is Some && r->Some_0.program@ == program && args_view(r->Some_0.args@) == args,
            None => r is None,
        },
{
    proof {
        reveal_strlit("open");
        reveal_strlit("xdg-open");
        reveal_strlit("cmd");
        reveal_strlit("/C");
        reveal_strlit("start");
        reveal_strlit("");
    }
    match platform {
        Platform::MacOs => {
            let args = vec![url.to_owned()];
            proof {
                assert(args_view(args@) =~= seq![url@]);
            }
            Some(ExternalUrlCommand { program: "open", args })
        },
        Platform::Linux => {
            let args = vec![url.to_owned()];
            proof {
                assert(args_view(args@) =~= seq![url@]);
            }
            Some(ExternalUrlCommand { program: "xdg-open", args })
        },
        Platform::Windows => {
            let c = "/C";
            let start = "start";
            let empty = "";
            proof {
                assert(c@ =~= seq!['/', 'C']);
                assert(start@ =~= seq!['s', 't', 'a', 'r', 't']);
                assert(empty@ =~= Seq::<char>::empty());
            }
            let args = vec![c.to_owned(), start.to_owned(), empty.to_owned(), url.to_owned()];
            proof {
                assert(args_view(args@) =~= seq![seq!['/', 'C'], seq!['s', 't', 'a', 'r', 't'], Seq::<char>::empty(), url@]);
            }
            Some(ExternalUrlCommand { program: "cmd", args })
        },
        Platform::Other => None,
    }
}

/// The command that opens `url`, when it is a web link and the platform has an opener.
pub fn external_url_command(url: &str, platform: Platform) -> (r: Option<ExternalUrlCommand>)
    ensures
        !supported_url(encode_utf8(url@)) ==> r is None,
        supported_url(encode_utf8(url@)) ==> match open_command_of(url@, platform) {
            Some((program, args)) => r is Some && r->Some_0.program@ == program && args_view(r->Some_0.args@) == args,
            None => r is None,
        },
{
    if !is_supported_external_url(url) {
        return None;
    }
    platform_open_command(url, platform)
}

} // verus!
