//! Where a vault's daemon keeps its machine-local files: the index database and socket live in
//! `<vault>/.mdkb`. A directory under an explicit base, named by a stable hash of the vault's
//! absolute path, can be asked for instead. Paths are `/`-separated text.

use vstd::prelude::*;
use vstd::utf8::encode_utf8;
use crate::text::{chars_of, copy_range, push_str, string_from};

verus! {

/// FNV-1a 64-bit over the first `n` bytes of `b`.
pub open spec fn fnv_prefix(b: Seq<u8>, n: int) -> u64
    decreases n,
{
    if n <= 0 {
        0xcbf2_9ce4_8422_2325u64
    } else {
        vstd::wrapping::u64_specs::wrapping_mul(
            fnv_prefix(b, n - 1) ^ (b[n - 1] as u64),
            0x0000_0100_0000_01b3u64,
        )
    }
}

/// FNV-1a 64-bit: a small hash whose output is stable across builds and runs.
pub fn fnv1a64(bytes: &[u8]) -> (r: u64)
    ensures
        r == fnv_prefix(bytes@, bytes@.len() as int),
{
    let mut h: u64 = 0xcbf2_9ce4_8422_2325;
    let mut i: usize = 0;
    while i < bytes.len()
        invariant
            i <= bytes@.len(),
            h == fnv_prefix(bytes@, i as int),
        decreases bytes.len() - i,
    {
        h = h ^ (bytes[i] as u64);
        h = h.wrapping_mul(0x0000_0100_0000_01b3);
        i += 1;
    }
    h
}

/// The lower-case hex digit for `d < 16`.
pub open spec fn hex_char(d: int) -> char {
    if d < 10 {
        (('0' as int) + d) as char
    } else {
        (('a' as int) + d - 10) as char
    }
}

/// The last `n` hex digits of `h`, most significant first.
pub open spec fn hex_digits(h: u64, n: nat) -> Seq<char>
    decreases n,
{
    if n == 0 {
        seq![]
    } else {
        hex_digits(h / 16, (n - 1) as nat).push(hex_char((h % 16) as int))
    }
}

fn hex_char_exec(d: u64) -> (r: char)
    requires
        d < 16,
    ensures
        r == hex_char(d as int),
{
    let table: [char; 16] = [
        '0', '1', '2', '3', '4', '5', '6', '7', '8', '9', 'a', 'b', 'c', 'd', 'e', 'f',
    ];
    let c = table[d as usize];
    assert(c == hex_char(d as int)) by {
        assert(table@ =~= seq!['0', '1', '2', '3', '4', '5', '6', '7', '8', '9', 'a', 'b', 'c', 'd', 'e', 'f']);
    }
    c
}

fn push_hex(out: &mut Vec<char>, h: u64, n: usize)
    ensures
        final(out)@ == old(out)@ + hex_digits(h, n as nat),
    decreases n,
{
    if n > 0 {
        push_hex(out, h / 16, n - 1);
        out.push(hex_char_exec(h % 16));
    }
}

/// The id of a vault: the FNV-1a hash of its absolute path, as 16 lower-case hex digits.
pub open spec fn vault_id_of(abs: Seq<char>) -> Seq<char> {
    hex_digits(fnv_prefix(encode_utf8(abs), encode_utf8(abs).len() as int), 16)
}

/// The stable id of the vault whose absolute path is `abs`.
pub fn vault_id(abs: &str) -> (r: String)
    ensures
        r@ == vault_id_of(abs@),
{
    let h = fnv1a64(abs.as_bytes());
    let mut out: Vec<char> = Vec::new();
    push_hex(&mut out, h, 16);
    string_from(&out)
}

/// `comp` appended to the directory `base` with one `/` between them.
pub open spec fn join_path(base: Seq<char>, comp: Seq<char>) -> Seq<char> {
    if base.len() == 0 {
        comp
    } else if base.last() == '/' {
        base + comp
    } else {
        base + seq!['/'] + comp
    }
}

pub(crate) fn join(base: &str, comp: &str) -> (r: String)
    ensures
        r@ == join_path(base@, comp@),
{
    let b = chars_of(base);
    let mut out: Vec<char> = Vec::new();
    crate::text::push_all(&mut out, &b);
    if b.len() > 0 && b[b.len() - 1] != '/' {
        out.push('/');
    }
    push_str(&mut out, comp);
    string_from(&out)
}

/// The machine-local directory of a vault: `<vault>/.mdkb`, holding the index database and
/// the daemon's socket.
pub open spec fn index_dir_of(vault: Seq<char>) -> Seq<char> {
    join_path(vault, ".mdkb"@)
}

/// The directory for a vault under an explicit base: `<base>/<vault id>` given a base (the id
/// of the vault's absolute path `abs`), else the vault's own [`index_dir_of`].
pub open spec fn index_dir_under(vault: Seq<char>, base: Option<Seq<char>>, abs: Seq<char>) -> Seq<char> {
    match base {
        Some(b) => join_path(b, vault_id_of(abs)),
        None => index_dir_of(vault),
    }
}

/// The directory for `vault` (whose absolute path is `abs`) under an explicit `base`, or the
/// vault's own `.mdkb` when there is none (see [`index_dir_under`]).
pub fn index_dir_in(vault: &str, base: Option<&str>, abs: &str) -> (r: String)
    ensures
        r@ == index_dir_under(
            vault@,
            match base {
                Some(b) => Some(b@),
                None => None,
            },
            abs@,
        ),
{
    match base {
        Some(b) => {
            let id = vault_id(abs);
            join(b, id.as_str())
        },
        None => join(vault, ".mdkb"),
    }
}

/// The parent directory of a path: the text before its last `/` (`/` itself for a top-level
/// entry, empty for a bare name), or none for the root or an empty path.
pub open spec fn parent_dir(p: Seq<char>) -> Option<Seq<char>> {
    let i = last_slash(p, p.len() as int);
    if i < 0 {
        if p.len() == 0 {
            None
        } else {
            Some(seq![])
        }
    } else if i == 0 {
        if p.len() == 1 {
            None
        } else {
            Some(seq!['/'])
        }
    } else {
        Some(p.take(i))
    }
}

/// The index of the last `/` before `n`, or `-1`.
pub open spec fn last_slash(p: Seq<char>, n: int) -> int
    decreases n,
{
    if n <= 0 {
        -1
    } else if p[n - 1] == '/' {
        n - 1
    } else {
        last_slash(p, n - 1)
    }
}

/// The standard locations of a vault's daemon files.
#[derive(Debug, Clone, PartialEq, Eq)]
pub struct DaemonPaths {
    /// Vault root (the directory of Markdown files, the only thing meant to sync).
    pub vault: String,
    /// The index database (machine-local).
    pub db: String,
    /// The local socket the daemon listens on (machine-local).
    pub socket: String,
}

impl DaemonPaths {
    /// The paths for `vault` (absolute path `abs`) with the machine-local directory under an
    /// explicit `base` (or the vault's own `.mdkb` when there is none): `index.db` and
    /// `mdkbd.sock` there.
    pub fn from_vault_in(vault: &str, base: Option<&str>, abs: &str) -> (r: DaemonPaths)
        ensures
            r.vault@ == vault@,
            r.db@ == join_path(
                index_dir_under(
                    vault@,
                    match base {
                        Some(b) => Some(b@),
                        None => None,
                    },
                    abs@,
                ),
                "index.db"@,
            ),
            r.socket@ == join_path(
                index_dir_under(
                    vault@,
                    match base {
                        Some(b) => Some(b@),
                        None => None,
                    },
                    abs@,
                ),
                "mdkbd.sock"@,
            ),
    {
        let dir = index_dir_in(vault, base, abs);
        DaemonPaths {
            vault: vault.to_owned(),
            db: join(dir.as_str(), "index.db"),
            socket: join(dir.as_str(), "mdkbd.sock"),
        }
    }

    /// The machine-local directory holding the database and socket (the socket's parent).
    pub fn mdkb_dir(&self) -> (r: String)
        ensures
            r@ == match parent_dir(self.socket@) {
                Some(d) => d,
                None => self.vault@,
            },
    {
        let s = chars_of(self.socket.as_str());
        let mut i: usize = s.len();
        while i > 0 && s[i - 1] != '/'
            invariant
                i <= s@.len(),
                last_slash(s@, s@.len() as int) == last_slash(s@, i as int),
            decreases i,
        {
            i -= 1;
        }
        if i == 0 {
            if s.len() == 0 {
                return self.vault.clone();
            }
            return string_from(&Vec::new());
        }
        if i == 1 {
            if s.len() == 1 {
                return self.vault.clone();
            }
            let mut v: Vec<char> = Vec::new();
            v.push('/');
            return string_from(&v);
        }
        string_from(&copy_range(&s, 0, i - 1))
    }
}

} // verus!
