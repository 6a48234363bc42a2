use vstd::prelude::*;
use vstd::string::*;

verus! {

/// A function to compile: its C name and the path of its source.
#[derive(Debug, Clone, PartialEq, Eq)]
pub struct FunctionSpec {
    pub name: String,
    pub path: String,
}

/// The offset of the first `c` in `s`, if there is one.
pub open spec fn first_index_of(s: Seq<char>, c: char) -> Option<int> {
    if exists|i: int| 0 <= i < s.len() && s[i] == c {
        Some(choose|i: int| 0 <= i < s.len() && s[i] == c && forall|j: int| 0 <= j < i ==> s[j] != c)
    } else {
        None
    }
}

impl FunctionSpec {
    /// Reads `NAME=FILE`, split at the first `=`; neither part may be empty.
    pub fn from_str(raw: &str) -> (r: Result<Self, String>)
        ensures
            ({
                let s = raw@;
                match first_index_of(s, '=') {
                    None => r matches Err(e) && e@ == "expected NAME=FILE"@,
                    Some(i) => if i == 0 {
                        r matches Err(e) && e@ == "function name cannot be empty"@
                    } else if i == s.len() - 1 {
                        r matches Err(e) && e@ == "source path cannot be empty"@
                    } else {
                        r matches Ok(f) && f.name@ == s.subrange(0, i) && f.path@ == s.subrange(
                            i + 1,
                            s.len() as int,
                        )
                    },
                }
            }),
    {
        let n = raw.unicode_len();
        let mut i: usize = 0;
        while i < n
            invariant
                n == raw@.len(),
                i <= n,
                forall|j: int| 0 <= j < i ==> raw@[j] != '=',
            ensures
                i <= n,
                forall|j: int| 0 <= j < i ==> raw@[j] != '=',
                i < n ==> raw@[i as int] == '=',
            decreases n - i,
        {
            if raw.get_char(i) == '=' {
                break;
            }
            i += 1;
        }
        if i == n {
            return Err(String::from_str("expected NAME=FILE"));
        }
        assert(raw@[i as int] == '=');
        let ghost k = first_index_of(raw@, '=');
        assert(k == Some(i as int)) by {
            let w = choose|w: int| 0 <= w < raw@.len() && raw@[w] == '=' && forall|j: int|
                0 <= j < w ==> raw@[j] != '=';
            assert(0 <= w < raw@.len() && raw@[w] == '=' && forall|j: int| 0 <= j < w ==> raw@[j] != '=');
            if w < i {
            } else if w > i {
                assert(raw@[i as int] != '=');
            }
        }

        let name = raw.substring_char(0, i);
        let path = raw.substring_char(i + 1, n);

        if i == 0 {
            return Err(String::from_str("function name cannot be empty"));
        }

        if i + 1 == n {
            return Err(String::from_str("source path cannot be empty"));
        }

        Ok(Self { name: String::from_str(name), path: String::from_str(path) })
    }
}

} // verus!
