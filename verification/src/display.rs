//! Plain-text rendering of balances, addresses and statuses.
//!
//! Balances are rendered exactly from the integer lamport count: the native
//! token has nine decimal places, so no floating point is needed.  All the
//! functions here return the text they build, and state it character by
//! character.

use vstd::prelude::*;
use vstd::string::StringExecFns;
use vstd::string::StrSliceExecFns;

verus! {

/// Lamports per whole token.
pub const LAMPORTS_PER_SOL: u64 = 1_000_000_000;

pub open spec fn digit_char(d: int) -> char {
    if d == 0 {
        '0'
    } else if d == 1 {
        '1'
    } else if d == 2 {
        '2'
    } else if d == 3 {
        '3'
    } else if d == 4 {
        '4'
    } else if d == 5 {
        '5'
    } else if d == 6 {
        '6'
    } else if d == 7 {
        '7'
    } else if d == 8 {
        '8'
    } else {
        '9'
    }
}

/// The decimal digits of `n`, most significant first.
pub open spec fn dec_str(n: int) -> Seq<char>
    decreases n,
{
    if n < 10 {
        seq![digit_char(n)]
    } else {
        dec_str(n / 10).push(digit_char(n % 10))
    }
}

/// `s` left-padded with zeros to `width` characters.
pub open spec fn zero_pad(s: Seq<char>, width: int) -> Seq<char>
    decreases width - s.len(),
{
    if s.len() >= width {
        s
    } else {
        zero_pad(seq!['0'] + s, width)
    }
}

/// `s` with its trailing zeros removed.
pub open spec fn trim_zeros(s: Seq<char>) -> Seq<char>
    decreases s.len(),
{
    if s.len() > 0 && s.last() == '0' {
        trim_zeros(s.drop_last())
    } else {
        s
    }
}

/// `s` with a single trailing dot removed.
pub open spec fn trim_dot(s: Seq<char>) -> Seq<char> {
    if s.len() > 0 && s.last() == '.' {
        s.drop_last()
    } else {
        s
    }
}

/// The token amount of `lamports`, nine decimals: integer part, a dot, the
/// zero-padded fraction.
pub open spec fn sol_str(lamports: u64) -> Seq<char> {
    dec_str(lamports as int / LAMPORTS_PER_SOL as int) + seq!['.'] + zero_pad(
        dec_str(lamports as int % (LAMPORTS_PER_SOL as int)),
        9,
    )
}

/// What the balance message says for each configuration.
pub open spec fn balance_message_spec(
    lamports: u64,
    use_lamports_unit: bool,
    show_unit: bool,
    trim_trailing_zeros: bool,
) -> Seq<char> {
    let value = if use_lamports_unit {
        dec_str(lamports as int)
    } else {
        if trim_trailing_zeros {
            trim_dot(trim_zeros(sol_str(lamports)))
        } else {
            sol_str(lamports)
        }
    };
    let unit = if show_unit {
        if use_lamports_unit {
            if lamports == 1 {
                " lamport"@
            } else {
                " lamports"@
            }
        } else {
            " SOL"@
        }
    } else {
        Seq::<char>::empty()
    };
    value + unit
}

fn push_digit(s: &mut String, d: u64)
    requires
        d < 10,
    ensures
        final(s)@ == old(s)@.push(digit_char(d as int)),
{
    proof {
        reveal_strlit("0");
        reveal_strlit("1");
        reveal_strlit("2");
        reveal_strlit("3");
        reveal_strlit("4");
        reveal_strlit("5");
        reveal_strlit("6");
        reveal_strlit("7");
        reveal_strlit("8");
        reveal_strlit("9");
    }
    let t: &str = if d == 0 {
        "0"
    } else if d == 1 {
        "1"
    } else if d == 2 {
        "2"
    } else if d == 3 {
        "3"
    } else if d == 4 {
        "4"
    } else if d == 5 {
        "5"
    } else if d == 6 {
        "6"
    } else if d == 7 {
        "7"
    } else if d == 8 {
        "8"
    } else {
        "9"
    };
    s.append(t);
    proof {
        assert(s@ =~= old(s)@.push(digit_char(d as int)));
    }
}

/// Appends the decimal rendering of `n`.
fn append_u64(s: &mut String, n: u64)
    ensures
        final(s)@ == old(s)@ + dec_str(n as int),
    decreases n,
{
    if n < 10 {
        push_digit(s, n);
        proof {
            assert(old(s)@ + dec_str(n as int) =~= old(s)@.push(digit_char(n as int)));
        }
    } else {
        append_u64(s, n / 10);
        push_digit(s, n % 10);
        proof {
            assert(old(s)@ + dec_str(n as int) =~= (old(s)@ + dec_str(n as int / 10)).push(
                digit_char((n % 10) as int),
            ));
        }
    }
}

/// The decimal rendering of `n`.
pub fn u64_to_string(n: u64) -> (out: String)
    ensures
        out@ == dec_str(n as int),
{
    let mut s = String::new();
    append_u64(&mut s, n);
    proof {
        assert(Seq::<char>::empty() + dec_str(n as int) =~= dec_str(n as int));
    }
    s
}

/// How a balance is rendered.
#[derive(Clone, Debug)]
pub struct BuildBalanceMessageConfig {
    pub use_lamports_unit: bool,
    pub show_unit: bool,
    pub trim_trailing_zeros: bool,
}

impl Default for BuildBalanceMessageConfig {
    /// Token units, with the unit shown and trailing zeros trimmed.
    fn default() -> (out: Self)
        ensures
            out.use_lamports_unit == false,
            out.show_unit == true,
            out.trim_trailing_zeros == true,
    {
        Self { use_lamports_unit: false, show_unit: true, trim_trailing_zeros: true }
    }
}

/// Renders a balance under the given configuration: the exact token amount
/// from the integer lamport count, with the unit if asked.
pub fn build_balance_message_with_config(
    lamports: u64,
    config: &BuildBalanceMessageConfig,
) -> (out: String)
    ensures
        out@ == balance_message_spec(
            lamports,
            config.use_lamports_unit,
            config.show_unit,
            config.trim_trailing_zeros,
        ),
{
    let mut value: String = String::new();
    if config.use_lamports_unit {
        append_u64(&mut value, lamports);
        proof {
            assert(value@ =~= dec_str(lamports as int));
        }
    } else {
        let whole = lamports / LAMPORTS_PER_SOL;
        let frac = lamports % LAMPORTS_PER_SOL;
        append_u64(&mut value, whole);
        proof {
            reveal_strlit(".");
            assert(value@ =~= dec_str(lamports as int / LAMPORTS_PER_SOL as int));
        }
        value.append(".");
        let mut frac_str = String::new();
        append_u64(&mut frac_str, frac);
        proof {
            assert(frac_str@ =~= dec_str(lamports as int % (LAMPORTS_PER_SOL as int)));
            lemma_dec_str_len(frac as int);
        }
        let mut pad = frac_str.as_str().unicode_len();
        while pad < 9
            invariant
                pad == frac_str@.len(),
                zero_pad(frac_str@, 9) == zero_pad(
                    dec_str(lamports as int % (LAMPORTS_PER_SOL as int)),
                    9,
                ),
            decreases 9 - pad,
        {
            proof {
                reveal_strlit("0");
            }
            let mut padded = String::from_str("0");
            padded.append(frac_str.as_str());
            proof {
                assert(padded@ =~= seq!['0'] + frac_str@);
            }
            frac_str = padded;
            pad = pad + 1;
        }
        proof {
            assert(frac_str@.len() >= 9);
            assert(zero_pad(frac_str@, 9) == frac_str@);
            assert("."@ =~= seq!['.']);
        }
        value.append(frac_str.as_str());
        if config.trim_trailing_zeros {
            value = trim_value(value);
        }
    }
    let unit: &str = if config.show_unit {
        if config.use_lamports_unit {
            if lamports == 1 {
                " lamport"
            } else {
                " lamports"
            }
        } else {
            " SOL"
        }
    } else {
        ""
    };
    proof {
        reveal_strlit(" lamport");
        reveal_strlit(" lamports");
        reveal_strlit(" SOL");
        reveal_strlit("");
    }
    let out = value.concat(unit);
    proof {
        assert(out@ =~= balance_message_spec(
            lamports,
            config.use_lamports_unit,
            config.show_unit,
            config.trim_trailing_zeros,
        ));
    }
    out
}

/// A rendered number never starts empty.
proof fn lemma_dec_str_len(n: int)
    ensures
        dec_str(n).len() >= 1,
    decreases n,
{
    if n >= 10 {
        lemma_dec_str_len(n / 10);
    }
}

/// Removes trailing zeros and then a trailing dot.
fn trim_value(s: String) -> (out: String)
    ensures
        out@ == trim_dot(trim_zeros(s@)),
{
    let mut end = s.as_str().unicode_len();
    proof {
        assert(s@.take(s@.len() as int) =~= s@);
    }
    while end > 0 && s.as_str().get_char(end - 1) == '0'
        invariant
            end <= s@.len(),
            trim_zeros(s@) == trim_zeros(s@.take(end as int)),
        decreases end,
    {
        proof {
            assert(s@.take(end as int).drop_last() =~= s@.take(end - 1));
            assert(s@.take(end as int).last() == s@[end - 1]);
        }
        end = end - 1;
    }
    proof {
        if end > 0 {
            assert(s@.take(end as int).last() == s@[end - 1]);
        }
        assert(trim_zeros(s@.take(end as int)) == s@.take(end as int));
    }
    let end2 = if end > 0 && s.as_str().get_char(end - 1) == '.' {
        end - 1
    } else {
        end
    };
    proof {
        if end > 0 && s@[end - 1] == '.' {
            assert(s@.take(end as int).drop_last() =~= s@.take(end2 as int));
        }
        assert(trim_dot(s@.take(end as int)) == s@.take(end2 as int));
    }
    let out = s.as_str().substring_char(0, end2);
    proof {
        assert(out@ =~= s@.take(end2 as int));
    }
    out.to_owned()
}

/// Renders a balance, trimming trailing zeros.
pub fn build_balance_message(lamports: u64, use_lamports_unit: bool, show_unit: bool) -> (out:
    String)
    ensures
        out@ == balance_message_spec(lamports, use_lamports_unit, show_unit, true),
{
    build_balance_message_with_config(
        lamports,
        &BuildBalanceMessageConfig { use_lamports_unit, show_unit, trim_trailing_zeros: true },
    )
}

/// True when the two strings hold the same characters.
fn str_eq(a: &str, b: &str) -> (r: bool)
    ensures
        r == (a@ == b@),
{
    let la = a.unicode_len();
    let lb = b.unicode_len();
    if la != lb {
        proof {
            assert(a@ != b@);
        }
        return false;
    }
    let mut i: usize = 0;
    while i < la
        invariant
            la == a@.len() == b@.len(),
            0 <= i <= la,
            forall|j: int| 0 <= j < i ==> a@[j] == b@[j],
        decreases la - i,
    {
        if a.get_char(i) != b.get_char(i) {
            return false;
        }
        i = i + 1;
    }
    proof {
        assert(a@ =~= b@);
    }
    true
}

/// Saved names for addresses.
pub struct AddressLabels {
    pub entries: Vec<(String, String)>,
}

/// The saved name of the address, if any: the first matching entry.
pub open spec fn label_of(entries: Seq<(String, String)>, pk: Seq<char>) -> Option<Seq<char>>
    decreases entries.len(),
{
    if entries.len() == 0 {
        None
    } else if entries[0].0@ == pk {
        Some(entries[0].1@)
    } else {
        label_of(entries.drop_first(), pk)
    }
}

/// A labeled address: the name truncated to 31 characters, then the first
/// and last four characters of the address in parentheses; an unlabeled
/// address is shown whole.
pub open spec fn labeled_address_spec(pk: Seq<char>, entries: Seq<(String, String)>) -> Seq<
    char,
> {
    match label_of(entries, pk) {
        None => pk,
        Some(label) => (if label.len() > 31 {
            label.take(31)
        } else {
            label
        }) + " ("@ + pk.take(4) + ".."@ + pk.skip(pk.len() - 4) + ")"@,
    }
}

pub fn format_labeled_address(pubkey: &str, address_labels: &AddressLabels) -> (out: String)
    requires
        label_of(address_labels.entries@, pubkey@) is Some ==> pubkey@.len() >= 4,
    ensures
        out@ == labeled_address_spec(pubkey@, address_labels.entries@),
{
    let n = address_labels.entries.len();
    let mut i: usize = 0;
    proof {
        assert(address_labels.entries@.skip(0) =~= address_labels.entries@);
    }
    while i < n
        invariant
            n == address_labels.entries@.len(),
            0 <= i <= n,
            label_of(address_labels.entries@, pubkey@) == label_of(
                address_labels.entries@.skip(i as int),
                pubkey@,
            ),
            label_of(address_labels.entries@, pubkey@) is Some ==> pubkey@.len() >= 4,
        decreases n - i,
    {
        proof {
            assert(address_labels.entries@.skip(i as int)[0] == address_labels.entries@[i as int]);
            assert(address_labels.entries@.skip(i as int).drop_first()
                =~= address_labels.entries@.skip(i + 1));
        }
        if str_eq(address_labels.entries[i].0.as_str(), pubkey) {
            let label = &address_labels.entries[i].1;
            let llen = label.as_str().unicode_len();
            let mut out = if llen > 31 {
                label.as_str().substring_char(0, 31).to_owned()
            } else {
                label.clone()
            };
            proof {
                reveal_strlit(" (");
                reveal_strlit("..");
                reveal_strlit(")");
            }
            out.append(" (");
            let plen = pubkey.unicode_len();
            out.append(pubkey.substring_char(0, 4));
            out.append("..");
            out.append(pubkey.substring_char(plen - 4, plen));
            out.append(")");
            proof {
                assert(out@ =~= labeled_address_spec(pubkey@, address_labels.entries@));
            }
            return out;
        }
        i = i + 1;
    }
    pubkey.to_owned()
}

/// Which roles an account plays in a transaction.
pub struct CliAccountMeta {
    pub is_signer: bool,
    pub is_writable: bool,
    pub is_invoked: bool,
}

/// The four mode letters of an account: signer, readable (always),
/// writable, executable, with dashes for the roles it lacks.
pub open spec fn account_mode_spec(meta: CliAccountMeta) -> Seq<char> {
    (if meta.is_signer {
        "s"@
    } else {
        "-"@
    }) + "r"@ + (if meta.is_writable {
        "w"@
    } else {
        "-"@
    }) + (if meta.is_invoked {
        "x"@
    } else {
        "-"@
    })
}

pub fn format_account_mode(meta: CliAccountMeta) -> (out: String)
    ensures
        out@ == account_mode_spec(meta),
{
    proof {
        reveal_strlit("s");
        reveal_strlit("r");
        reveal_strlit("w");
        reveal_strlit("x");
        reveal_strlit("-");
    }
    let mut out = String::new();
    out.append(
        if meta.is_signer {
            "s"
        } else {
            "-"
        },
    );
    out.append("r");
    out.append(
        if meta.is_writable {
            "w"
        } else {
            "-"
        },
    );
    out.append(
        if meta.is_invoked {
            "x"
        } else {
            "-"
        },
    );
    proof {
        assert(out@ =~= account_mode_spec(meta));
    }
    out
}

/// The status line of a transaction: `Ok`, or the error's text.
pub open spec fn status_line_spec(status: Result<(), String>, prefix: Seq<char>) -> Seq<char> {
    prefix + "Status: "@ + (match status {
        Ok(_) => "Ok"@,
        Err(e) => e@,
    }) + "\n"@
}

pub fn write_status(transaction_status: &Result<(), String>, prefix: &str) -> (out: String)
    ensures
        out@ == status_line_spec(*transaction_status, prefix@),
{
    proof {
        reveal_strlit("Status: ");
        reveal_strlit("Ok");
        reveal_strlit("\n");
    }
    let mut out = prefix.to_owned();
    out.append("Status: ");
    match transaction_status {
        Ok(_) => out.append("Ok"),
        Err(e) => out.append(e.as_str()),
    }
    out.append("\n");
    proof {
        assert(out@ =~= status_line_spec(*transaction_status, prefix@));
    }
    out
}

/// One indented line per log message.
pub open spec fn log_lines_spec(msgs: Seq<String>, prefix: Seq<char>) -> Seq<char>
    decreases msgs.len(),
{
    if msgs.len() == 0 {
        Seq::<char>::empty()
    } else {
        log_lines_spec(msgs.drop_last(), prefix) + prefix + "  "@ + msgs.last()@ + "\n"@
    }
}

/// The log section: a header and the indented messages, or nothing when
/// there are none.
pub open spec fn log_messages_spec(msgs: Option<Seq<String>>, prefix: Seq<char>) -> Seq<char> {
    match msgs {
        None => Seq::<char>::empty(),
        Some(m) => if m.len() == 0 {
            Seq::<char>::empty()
        } else {
            prefix + "Log Messages:\n"@ + log_lines_spec(m, prefix)
        },
    }
}

pub fn write_log_messages(log_messages: Option<&Vec<String>>, prefix: &str) -> (out: String)
    ensures
        out@ == log_messages_spec(
            match log_messages {
                Some(m) => Some(m@),
                None => None,
            },
            prefix@,
        ),
{
    proof {
        reveal_strlit("Log Messages:\n");
        reveal_strlit("  ");
        reveal_strlit("\n");
    }
    let mut out = String::new();
    match log_messages {
        None => {},
        Some(msgs) => {
            let n = msgs.len();
            if n > 0 {
                out.append(prefix);
                out.append("Log Messages:\n");
                let mut i: usize = 0;
                while i < n
                    invariant
                        n == msgs@.len(),
                        0 <= i <= n,
                        out@ == prefix@ + "Log Messages:\n"@ + log_lines_spec(
                            msgs@.take(i as int),
                            prefix@,
                        ),
                    decreases n - i,
                {
                    proof {
                        assert(msgs@.take(i + 1).drop_last() =~= msgs@.take(i as int));
                        assert(msgs@.take(i + 1).last() == msgs@[i as int]);
                    }
                    out.append(prefix);
                    out.append("  ");
                    out.append(msgs[i].as_str());
                    out.append("\n");
                    proof {
                        assert(out@ =~= prefix@ + "Log Messages:\n"@ + log_lines_spec(
                            msgs@.take(i + 1),
                            prefix@,
                        ));
                    }
                    i = i + 1;
                }
                proof {
                    assert(msgs@.take(n as int) =~= msgs@);
                }
            }
        },
    }
    out
}

} // verus!
