//! Settings of the process, taken once from the variables of its environment.
//!
//! The environment itself is read by the caller, who hands over the variables
//! as pairs of name and value. A variable that is not set counts as empty.

use vstd::prelude::*;
use vstd::string::*;

verus! {

/// The name under which the process logs.
pub const PROJECT_NAME: &'static str = "sandoo";

/// The address that block rewards are paid to by the builder.
pub const COINBASE: &'static str = "0xDAFEA492D9c6733ae3d56b7Ed1ADB60692c98Bc5";

/// The address of the wrapped native token.
pub const WETH: &'static str = "0xC02aaA39b223FE8D0A0e5C4F27eAD9083C756Cc2";

/// The storage slot of the wrapped native token that holds the balances.
pub const WETH_BALANCE_SLOT: i32 = 3;

/// The number of decimals of the wrapped native token.
pub const WETH_DECIMALS: u8 = 18;

/// The settings of the process.
#[derive(Debug, Clone)]
pub struct Env {
    pub http_url: String,
    pub wss_url: String,
    pub bot_address: String,
    pub private_key: String,
    pub identity_key: String,
    pub telegram_token: String,
    pub telegram_chat_id: String,
    pub use_alert: bool,
    pub debug: bool,
}

/// The value of the first variable with the name; empty where none has it.
pub open spec fn lookup(vars: Seq<(String, String)>, key: Seq<char>) -> Seq<char>
    decreases vars.len(),
{
    if vars.len() == 0 {
        Seq::empty()
    } else if vars.first().0@ == key {
        vars.first().1@
    } else {
        lookup(vars.drop_first(), key)
    }
}

/// Whether the text switches a setting on: it does if it is `true`, and
/// nothing else does.
pub open spec fn flag_of(text: Seq<char>) -> bool {
    text == seq!['t', 'r', 'u', 'e']
}

/// The value of a variable, empty where it is not set.
pub fn get_env(vars: &Vec<(String, String)>, key: &str) -> (value: String)
    ensures
        value@ == lookup(vars@, key@),
{
    let name = String::from_str(key);
    let mut i: usize = 0;
    assert(vars@.skip(0) =~= vars@);
    while i < vars.len()
        invariant
            i <= vars@.len(),
            name@ == key@,
            lookup(vars@, key@) == lookup(vars@.skip(i as int), key@),
        decreases vars.len() - i,
    {
        proof {
            assert(vars@.skip(i as int).first() == vars@[i as int]);
            assert(vars@.skip(i as int).drop_first() =~= vars@.skip(i as int + 1));
        }
        if vars[i].0 == name {
            return vars[i].1.clone();
        }
        i = i + 1;
    }
    String::new()
}

/// Whether a value switches a setting on.
pub fn parse_flag(value: &String) -> (on: bool)
    ensures
        on == flag_of(value@),
{
    proof {
        reveal_strlit("true");
    }
    let yes = String::from_str("true");
    assert(yes@ =~= seq!['t', 'r', 'u', 'e']);
    *value == yes
}

impl Env {
    /// The settings that the variables hold.
    pub fn new(vars: &Vec<(String, String)>) -> (env: Env)
        ensures
            env.http_url@ == lookup(vars@, "HTTP_URL"@),
            env.wss_url@ == lookup(vars@, "WSS_URL"@),
            env.bot_address@ == lookup(vars@, "BOT_ADDRESS"@),
            env.private_key@ == lookup(vars@, "PRIVATE_KEY"@),
            env.identity_key@ == lookup(vars@, "IDENTITY_KEY"@),
            env.telegram_token@ == lookup(vars@, "TELEGRAM_TOKEN"@),
            env.telegram_chat_id@ == lookup(vars@, "TELEGRAM_CHAT_ID"@),
            env.use_alert == flag_of(lookup(vars@, "USE_ALERT"@)),
            env.debug == flag_of(lookup(vars@, "DEBUG"@)),
    {
        let http_url = get_env(vars, "HTTP_URL");
        let wss_url = get_env(vars, "WSS_URL");
        let bot_address = get_env(vars, "BOT_ADDRESS");
        let private_key = get_env(vars, "PRIVATE_KEY");
        let identity_key = get_env(vars, "IDENTITY_KEY");
        let telegram_token = get_env(vars, "TELEGRAM_TOKEN");
        let telegram_chat_id = get_env(vars, "TELEGRAM_CHAT_ID");
        let use_alert = parse_flag(&get_env(vars, "USE_ALERT"));
        let debug = parse_flag(&get_env(vars, "DEBUG"));
        Env {
            http_url,
            wss_url,
            bot_address,
            private_key,
            identity_key,
            telegram_token,
            telegram_chat_id,
            use_alert,
            debug,
        }
    }
}

} // verus!
