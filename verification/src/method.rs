use vstd::prelude::*;

verus! {

/// The request methods that can be asked for.
#[derive(Clone, Copy, Debug, PartialEq, Eq)]
pub enum HttpMethod {
    Get,
    Post,
    Put,
    Patch,
    Delete,
    Head,
    Options,
}

/// The method's name as it goes on the request line.
pub open spec fn method_name(m: HttpMethod) -> Seq<char> {
    match m {
        HttpMethod::Get => seq!['G', 'E', 'T'],
        HttpMethod::Post => seq!['P', 'O', 'S', 'T'],
        HttpMethod::Put => seq!['P', 'U', 'T'],
        HttpMethod::Patch => seq!['P', 'A', 'T', 'C', 'H'],
        HttpMethod::Delete => seq!['D', 'E', 'L', 'E', 'T', 'E'],
        HttpMethod::Head => seq!['H', 'E', 'A', 'D'],
        HttpMethod::Options => seq!['O', 'P', 'T', 'I', 'O', 'N', 'S'],
    }
}

impl HttpMethod {
    /// The method's name in capitals, as it is displayed.
    pub fn as_str(&self) -> (s: &'static str)
        ensures
            s@ == method_name(*self),
    {
        match self {
            HttpMethod::Get => {
                proof {
                    reveal_strlit("GET");
                }
                "GET"
            },
            HttpMethod::Post => {
                proof {
                    reveal_strlit("POST");
                }
                "POST"
            },
            HttpMethod::Put => {
                proof {
                    reveal_strlit("PUT");
                }
                "PUT"
            },
            HttpMethod::Patch => {
                proof {
                    reveal_strlit("PATCH");
                }
                "PATCH"
            },
            HttpMethod::Delete => {
                proof {
                    reveal_strlit("DELETE");
                }
                "DELETE"
            },
            HttpMethod::Head => {
                proof {
                    reveal_strlit("HEAD");
                }
                "HEAD"
            },
            HttpMethod::Options => {
                proof {
                    reveal_strlit("OPTIONS");
                }
                "OPTIONS"
            },
        }
    }
}

} // verus!
