use vstd::prelude::*;

verus! {

/// One user account known to the Headscale coordination server.
/// Identity is the name alone.
#[derive(Clone, Debug)]
pub struct HeadscaleUser {
    pub name: String,
}

/// One machine known to the Headscale coordination server, with the
/// addresses it answers on, its MagicDNS name, and its owner.
#[derive(Clone, Debug)]
pub struct HeadscaleNode {
    pub ip_addresses: Vec<String>,
    pub given_name: String,
    pub user: HeadscaleUser,
    pub online: bool,
}

/// Whether a user list holds a user of the given name.
pub open spec fn user_list_contains(list: Seq<HeadscaleUser>, name: Seq<char>) -> bool {
    exists|i: int| 0 <= i < list.len() && list[i].name@ == name
}

/// Whether the user list holds an entry whose name equals `user`.
pub fn headscale_user_list_contains_a_user(list: &Vec<HeadscaleUser>, user: &str) -> (r: bool)
    ensures
        r == user_list_contains(list@, user@),
{
    let wanted = String::from_str(user);
    let mut i: usize = 0;
    while i < list.len()
        invariant
            0 <= i <= list@.len(),
            wanted@ == user@,
            forall|j: int| 0 <= j < i ==> list@[j].name@ != user@,
        decreases list@.len() - i,
    {
        if list[i].name == wanted {
            return true;
        }
        i += 1;
    }
    false
}

/// The legacy MagicDNS name of a node under one root-domain suffix:
/// `{givenName}.{ownerName}.{suffix}`.
pub open spec fn magic_dns_name(given: Seq<char>, owner: Seq<char>, suffix: Seq<char>) -> Seq<
    char,
> {
    given + seq!['.'] + owner + seq!['.'] + suffix
}

impl HeadscaleNode {
    /// The legacy MagicDNS names of this node, one per configured
    /// root-domain suffix, in suffix order.
    pub fn get_magic_dns_domains(&self, magic_tld: &Vec<String>) -> (r: Vec<String>)
        ensures
            r@.len() == magic_tld@.len(),
            forall|i: int|
                0 <= i < r@.len() ==> r@[i]@ == magic_dns_name(
                    self.given_name@,
                    self.user.name@,
                    magic_tld@[i]@,
                ),
    {
        proof {
            reveal_strlit(".");
        }
        let mut r: Vec<String> = Vec::new();
        let mut i: usize = 0;
        while i < magic_tld.len()
            invariant
                0 <= i <= magic_tld@.len(),
                r@.len() == i,
                "."@ == seq!['.'],
                forall|j: int|
                    0 <= j < i ==> r@[j]@ == magic_dns_name(
                        self.given_name@,
                        self.user.name@,
                        magic_tld@[j]@,
                    ),
            decreases magic_tld@.len() - i,
        {
            let mut name = String::from_str(self.given_name.as_str());
            name.append(".");
            name.append(self.user.name.as_str());
            name.append(".");
            name.append(magic_tld[i].as_str());
            assert(name@ == magic_dns_name(self.given_name@, self.user.name@, magic_tld@[i as int]@));
            r.push(name);
            i += 1;
        }
        r
    }
}

} // verus!
