//! The address and the credentials of the bridge.

use vstd::prelude::*;

verus! {

/// Where the bridge is, the key that opens it, and the name under which this
/// program calls.
#[derive(Debug, PartialEq, Eq)]
pub struct Client {
    pub api_key: String,
    pub api_url: String,
    pub user_agent: String,
}

impl Clone for Client {
    fn clone(&self) -> (copy: Self)
        ensures
            copy == *self,
    {
        Client {
            api_key: self.api_key.clone(),
            api_url: self.api_url.clone(),
            user_agent: self.user_agent.clone(),
        }
    }
}

impl Client {
    /// A client that holds copies of the three strings.
    #[must_use]
    pub fn new(api_key: &str, api_url: &str, user_agent: &str) -> (client: Self)
        ensures
            client.api_key@ == api_key@,
            client.api_url@ == api_url@,
            client.user_agent@ == user_agent@,
    {
        Client {
            api_key: api_key.to_string(),
            api_url: api_url.to_string(),
            user_agent: user_agent.to_string(),
        }
    }

    /// The address of `endpoint`: the address of the bridge with the name of
    /// the endpoint behind it, nothing between them.
    pub fn url(&self, endpoint: &str) -> (url: String)
        ensures
            url@ == self.api_url@ + endpoint@,
    {
        self.api_url.clone().concat(endpoint)
    }

    /// The value of the `Authorization` header: the key as a bearer token.
    pub fn authorization(&self) -> (header: String)
        ensures
            header@ == "Bearer "@ + self.api_key@,
    {
        String::from_str("Bearer ").concat(self.api_key.as_str())
    }
}

} // verus!
