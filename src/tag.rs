//! Log source tags: `tag` for a system service, `user/tag` for a user's.

use vstd::prelude::*;
use vstd::slice::{slice_subrange, slice_to_vec};
use vstd::string::StringSliceAdditionalSpecFns;

verus! {

/// `b` is printable ASCII other than space (`/` included).
pub open spec fn printable(b: u8) -> bool {
    0x21 <= b <= 0x7E
}

/// A tag is printable ASCII with at most one `/`.
pub open spec fn valid_tag(b: Seq<u8>) -> bool {
    &&& forall|i: int| 0 <= i < b.len() ==> printable(#[trigger] b[i])
    &&& forall|i: int, j: int| 0 <= i < j < b.len() && #[trigger] b[i] == 0x2F ==> #[trigger] b[j] != 0x2F
}

/// Identifier of a log source.
#[derive(Debug, Clone, PartialEq, Eq)]
pub struct Tag {
    /// owner of a user service, `None` for a system service
    pub user: Option<Vec<u8>>,
    /// service name
    pub sv: Vec<u8>,
}

impl Tag {
    /// Reads `user/sv` or `sv`; `None` where `log` holds more than one `/`
    /// or a character that is neither `/` nor printable ASCII.
    pub fn new(log: &str) -> (r: Option<Tag>)
        ensures
            r is Some <==> valid_tag(log.spec_bytes()),
            r is Some ==> {
                let b = log.spec_bytes();
                let t = r->0;
                &&& forall|i: int|
                    0 <= i < b.len() && #[trigger] b[i] == 0x2F ==> t.user is Some && t.user->0@
                        == b.subrange(0, i) && t.sv@ == b.subrange(i + 1, b.len() as int)
                &&& (forall|i: int| 0 <= i < b.len() ==> #[trigger] b[i] != 0x2F) ==> t.user is None
                    && t.sv@ == b
            },
    {
        let b = log.as_bytes();
        let n = b.len();
        let mut slash: Option<usize> = None;
        let mut i: usize = 0;
        while i < n
            invariant
                n == b@.len(),
                b@ == log.spec_bytes(),
                i <= n,
                forall|k: int| 0 <= k < i ==> printable(#[trigger] b@[k]),
                match slash {
                    Some(s) => s < i && b@[s as int] == 0x2F && forall|k: int|
                        0 <= k < i && k != s ==> #[trigger] b@[k] != 0x2F,
                    None => forall|k: int| 0 <= k < i ==> #[trigger] b@[k] != 0x2F,
                },
            decreases n - i,
        {
            let c = b[i];
            if c < 0x21 || c > 0x7E {
                assert(!printable(b@[i as int]));
                return None;
            }
            if c == 0x2F {
                match slash {
                    Some(s) => {
                        assert(b@[s as int] == 0x2F && b@[i as int] == 0x2F);
                        return None;
                    },
                    None => {
                        slash = Some(i);
                    },
                }
            }
            i = i + 1;
        }
        match slash {
            Some(s) => {
                let user = slice_to_vec(slice_subrange(b, 0, s));
                let sv = slice_to_vec(slice_subrange(b, s + 1, n));
                Some(Tag { user: Some(user), sv })
            },
            None => {
                let sv = slice_to_vec(b);
                Some(Tag { user: None, sv })
            },
        }
    }

    /// The text form: `user/sv`, or `sv` alone.
    pub fn render(&self) -> (r: Vec<u8>)
        ensures
            r@ == match self.user {
                Some(u) => u@ + seq![0x2Fu8] + self.sv@,
                None => self.sv@,
            },
    {
        let mut out: Vec<u8> = Vec::new();
        match &self.user {
            Some(u) => {
                out.extend_from_slice(u.as_slice());
                out.push(0x2F);
            },
            None => {},
        }
        out.extend_from_slice(self.sv.as_slice());
        assert(out@ =~= match self.user {
            Some(u) => u@ + seq![0x2Fu8] + self.sv@,
            None => self.sv@,
        });
        out
    }
}

} // verus!
