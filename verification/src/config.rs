//! Process configuration and the mail-transport settings. Reading the
//! environment and opening SMTP connections happen outside the library; these
//! types carry the resolved values.

use vstd::prelude::*;

use crate::text::{ascii_chars, ascii_string, dec_digits, lemma_dec_digits_ascii, push_dec};

verus! {

/// The server's own settings: where the datastore lives and where to listen.
pub struct Config {
    pub database_url: String,
    pub host: String,
    pub port: u16,
}

impl Config {
    /// The listen address, `host:port`.
    pub fn addr(&self) -> (r: String)
        ensures
            r@ == self.host@ + seq![':'] + ascii_chars(dec_digits(self.port as u128)),
    {
        let mut s = self.host.clone();
        s.append(":");
        let mut d: Vec<u8> = Vec::new();
        push_dec(&mut d, self.port as u128);
        proof {
            lemma_dec_digits_ascii(self.port as u128);
            assert(d@ =~= dec_digits(self.port as u128));
        }
        let ds = ascii_string(d);
        s.append(ds.as_str());
        proof {
            reveal_strlit(":");
            assert(":"@ =~= seq![':']);
            assert(s@ =~= self.host@ + seq![':'] + ascii_chars(dec_digits(self.port as u128)));
        }
        s
    }
}

/// What the mail transport needs to deliver on this system's behalf. The
/// SMTP session itself runs outside the library.
pub struct EmailService {
    pub smtp_username: String,
    pub smtp_password: String,
    pub smtp_server: String,
    pub smtp_port: u16,
    pub from_email: String,
    pub from_name: String,
}

} // verus!
