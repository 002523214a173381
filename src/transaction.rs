//! Accepted transactions and the committed-state snapshot they are checked against.
use vstd::prelude::*;

verus! {

/// Digest that identifies a signed transaction.
pub type Fingerprint = [u8; 32];

/// Encoded public key of a signatory.
pub type PublicKey = [u8; 32];

/// Compares two 32-byte values.
fn same_bytes(a: &[u8; 32], b: &[u8; 32]) -> (r: bool)
    ensures
        r == (*a == *b),
{
    let mut i: usize = 0;
    while i < 32
        invariant
            0 <= i <= 32,
            forall|j: int| 0 <= j < i ==> a[j] == b[j],
        decreases 32 - i,
    {
        if a[i] != b[i] {
            return false;
        }
        i = i + 1;
    }
    proof {
        assert(*a =~= *b);
    }
    true
}

/// Whether `k` occurs in `keys`.
fn contains_key(keys: &Vec<PublicKey>, k: &PublicKey) -> (r: bool)
    ensures
        r == keys@.contains(*k),
{
    let mut i: usize = 0;
    while i < keys.len()
        invariant
            0 <= i <= keys.len(),
            forall|j: int| 0 <= j < i ==> keys@[j] != *k,
        decreases keys.len() - i,
    {
        if same_bytes(&keys[i], k) {
            return true;
        }
        i = i + 1;
    }
    false
}

/// Signature policy of an account: which signatories a transaction of the
/// account must carry.
#[derive(Clone, Debug)]
pub enum SignatureCheckCondition {
    /// At least one of the account's signatories, or of the listed keys, signed.
    AnyAccountSignatureOr(Vec<PublicKey>),
    /// Every one of the account's signatories, and every listed key, signed.
    AllAccountSignaturesAnd(Vec<PublicKey>),
}

impl SignatureCheckCondition {
    /// The policy that asks for every signatory of the account.
    pub fn all_account_signatures() -> (r: Self)
        ensures
            r is AllAccountSignaturesAnd && r->AllAccountSignaturesAnd_0@.len() == 0,
    {
        SignatureCheckCondition::AllAccountSignaturesAnd(Vec::new())
    }

    /// Whether a transaction signed by `signed` meets this policy for an
    /// account whose signatories are `account_keys`.
    pub open spec fn holds(self, account_keys: Seq<PublicKey>, signed: Seq<PublicKey>) -> bool {
        match self {
            SignatureCheckCondition::AnyAccountSignatureOr(extra) => exists|k: PublicKey|
                (account_keys.contains(k) || extra@.contains(k)) && #[trigger] signed.contains(k),
            SignatureCheckCondition::AllAccountSignaturesAnd(extra) => forall|k: PublicKey|
                #![trigger account_keys.contains(k)]
                #![trigger extra@.contains(k)]
                (account_keys.contains(k) || extra@.contains(k)) ==> signed.contains(k),
        }
    }

    /// Evaluates the policy against the signatories of a transaction.
    pub fn check(&self, account_keys: &Vec<PublicKey>, signed: &Vec<PublicKey>) -> (r: bool)
        ensures
            r == self.holds(account_keys@, signed@),
    {
        match self {
            SignatureCheckCondition::AnyAccountSignatureOr(extra) => {
                let a = any_signed(account_keys, signed);
                let b = any_signed(extra, signed);
                proof {
                    if any_signed_spec(account_keys@, signed@) {
                        let k = choose|k: PublicKey| account_keys@.contains(k) && #[trigger] signed@.contains(k);
                        assert(signed@.contains(k));
                    }
                    if any_signed_spec(extra@, signed@) {
                        let k = choose|k: PublicKey| extra@.contains(k) && #[trigger] signed@.contains(k);
                        assert(signed@.contains(k));
                    }
                    if self.holds(account_keys@, signed@) {
                        let k = choose|k: PublicKey|
                            (account_keys@.contains(k) || extra@.contains(k)) && #[trigger] signed@.contains(k);
                        if account_keys@.contains(k) {
                            assert(any_signed_spec(account_keys@, signed@));
                        } else {
                            assert(any_signed_spec(extra@, signed@));
                        }
                    }
                }
                a || b
            },
            SignatureCheckCondition::AllAccountSignaturesAnd(extra) => {
                let a = all_signed(account_keys, signed);
                let b = all_signed(extra, signed);
                proof {
                    if a && b {
                    } else if !a {
                        let k = choose|k: PublicKey| #[trigger] account_keys@.contains(k) && !signed@.contains(k);
                        assert(!self.holds(account_keys@, signed@));
                    } else {
                        let k = choose|k: PublicKey| #[trigger] extra@.contains(k) && !signed@.contains(k);
                        assert(!self.holds(account_keys@, signed@));
                    }
                }
                a && b
            },
        }
    }
}

/// Whether some key of `keys` is among `signed`.
pub open spec fn any_signed_spec(keys: Seq<PublicKey>, signed: Seq<PublicKey>) -> bool {
    exists|k: PublicKey| keys.contains(k) && #[trigger] signed.contains(k)
}

fn any_signed(keys: &Vec<PublicKey>, signed: &Vec<PublicKey>) -> (r: bool)
    ensures
        r == any_signed_spec(keys@, signed@),
{
    let mut i: usize = 0;
    while i < keys.len()
        invariant
            0 <= i <= keys.len(),
            forall|j: int| 0 <= j < i ==> !signed@.contains(#[trigger] keys@[j]),
        decreases keys.len() - i,
    {
        if contains_key(signed, &keys[i]) {
            assert(keys@.contains(keys@[i as int]));
            return true;
        }
        i = i + 1;
    }
    proof {
        assert forall|k: PublicKey| keys@.contains(k) implies !#[trigger] signed@.contains(k) by {
            let j = choose|j: int| 0 <= j < keys@.len() && keys@[j] == k;
            assert(!signed@.contains(keys@[j]));
        }
    }
    false
}

fn all_signed(keys: &Vec<PublicKey>, signed: &Vec<PublicKey>) -> (r: bool)
    ensures
        r == (forall|k: PublicKey| #[trigger] keys@.contains(k) ==> signed@.contains(k)),
{
    let mut i: usize = 0;
    while i < keys.len()
        invariant
            0 <= i <= keys.len(),
            forall|j: int| 0 <= j < i ==> signed@.contains(#[trigger] keys@[j]),
        decreases keys.len() - i,
    {
        if !contains_key(signed, &keys[i]) {
            assert(keys@.contains(keys@[i as int]));
            return false;
        }
        i = i + 1;
    }
    proof {
        assert forall|k: PublicKey| #[trigger] keys@.contains(k) implies signed@.contains(k) by {
            let j = choose|j: int| 0 <= j < keys@.len() && keys@[j] == k;
            assert(signed@.contains(keys@[j]));
        }
    }
    true
}

/// An account as the committed state holds it.
#[derive(Clone, Debug)]
pub struct Account {
    /// Account identifier, such as `alice@wonderland`.
    pub id: String,
    /// Keys registered for the account.
    pub signatories: Vec<PublicKey>,
    /// The account's multi-signature policy.
    pub signature_check_condition: SignatureCheckCondition,
}

impl Account {
    /// An account with one signatory and the default policy (any one signatory).
    pub fn new(id: String, key: PublicKey) -> (r: Self)
        ensures
            r.id@ == id@,
            r.signatories@ == seq![key],
            r.signature_check_condition is AnyAccountSignatureOr,
            r.signature_check_condition->AnyAccountSignatureOr_0@.len() == 0,
    {
        let mut signatories = Vec::new();
        signatories.push(key);
        Account {
            id,
            signatories,
            signature_check_condition: SignatureCheckCondition::AnyAccountSignatureOr(Vec::new()),
        }
    }

    /// Registers one more signatory.
    pub fn add_signatory(self, key: PublicKey) -> (r: Self)
        ensures
            r.id@ == self.id@,
            r.signatories@ == self.signatories@.push(key),
            r.signature_check_condition == self.signature_check_condition,
    {
        let mut a = self;
        a.signatories.push(key);
        a
    }

    /// Whether a transaction signed by `signed` satisfies this account's policy.
    pub open spec fn admits(self, signed: Seq<PublicKey>) -> bool {
        self.signature_check_condition.holds(self.signatories@, signed)
    }

    /// Evaluates the account's policy against a transaction's signatories.
    pub fn check_signature_check_condition(&self, signed: &Vec<PublicKey>) -> (r: bool)
        ensures
            r == self.admits(signed@),
    {
        self.signature_check_condition.check(&self.signatories, signed)
    }
}

/// Read-only snapshot of committed state: the fingerprints of committed
/// transactions and the registered accounts.
#[derive(Clone, Debug)]
pub struct StateView {
    /// Fingerprints of transactions included in committed blocks.
    pub transactions: Vec<Fingerprint>,
    /// Registered accounts; the first with a given identifier is the one read.
    pub accounts: Vec<Account>,
}

/// Policy verdict of the first account of `accounts` named `id` on the keys
/// `signed`; `false` where no account has that name.
pub open spec fn account_admits(accounts: Seq<Account>, id: Seq<char>, signed: Seq<PublicKey>) -> bool
    decreases accounts.len(),
{
    if accounts.len() == 0 {
        false
    } else if accounts[0].id@ == id {
        accounts[0].admits(signed)
    } else {
        account_admits(accounts.drop_first(), id, signed)
    }
}

impl StateView {
    /// A snapshot with no committed transaction and no account.
    pub fn new() -> (r: Self)
        ensures
            r.transactions@.len() == 0,
            r.accounts@.len() == 0,
    {
        StateView { transactions: Vec::new(), accounts: Vec::new() }
    }

    /// Whether `h` belongs to a committed transaction.
    pub open spec fn committed(self, h: Fingerprint) -> bool {
        self.transactions@.contains(h)
    }

    /// Whether the policy of account `id` admits the signatories `signed`.
    pub open spec fn signature_ok(self, id: Seq<char>, signed: Seq<PublicKey>) -> bool {
        account_admits(self.accounts@, id, signed)
    }

    /// Whether `h` belongs to a committed transaction.
    pub fn has_transaction(&self, h: &Fingerprint) -> (r: bool)
        ensures
            r == self.committed(*h),
    {
        let mut i: usize = 0;
        while i < self.transactions.len()
            invariant
                0 <= i <= self.transactions.len(),
                forall|j: int| 0 <= j < i ==> self.transactions@[j] != *h,
            decreases self.transactions.len() - i,
        {
            if same_bytes(&self.transactions[i], h) {
                assert(self.transactions@[i as int] == *h);
                return true;
            }
            i = i + 1;
        }
        false
    }

    /// Applies the policy of account `id` to the signatories `signed`;
    /// `false` where the account is not registered.
    pub fn check_account_signatures(&self, id: &String, signed: &Vec<PublicKey>) -> (r: bool)
        ensures
            r == self.signature_ok(id@, signed@),
    {
        let mut i: usize = 0;
        assert(self.accounts@.subrange(0, self.accounts@.len() as int) =~= self.accounts@);
        while i < self.accounts.len()
            invariant
                0 <= i <= self.accounts.len(),
                account_admits(self.accounts@, id@, signed@) == account_admits(
                    self.accounts@.subrange(i as int, self.accounts@.len() as int),
                    id@,
                    signed@,
                ),
            decreases self.accounts.len() - i,
        {
            let rest = Ghost(self.accounts@.subrange(i as int, self.accounts@.len() as int));
            assert(rest@.drop_first() =~= self.accounts@.subrange(i + 1, self.accounts@.len() as int));
            if self.accounts[i].id == *id {
                return self.accounts[i].check_signature_check_condition(signed);
            }
            i = i + 1;
        }
        false
    }
}

/// A transaction that passed stateless acceptance: its fingerprint, its
/// authority, its timing and the keys that signed it.
#[derive(Clone, Debug)]
pub struct AcceptedTransaction {
    /// Fingerprint of the signed transaction.
    pub hash: Fingerprint,
    /// Account that submitted it and is charged for it.
    pub authority: String,
    /// Creation time, in milliseconds since the Unix epoch.
    pub creation_time_ms: u64,
    /// Time to live chosen by the submitter, in milliseconds.
    pub time_to_live_ms: Option<u64>,
    /// Keys that signed it.
    pub signatories: Vec<PublicKey>,
}

impl AcceptedTransaction {
    /// Fingerprint of the transaction.
    pub fn hash(&self) -> (r: Fingerprint)
        ensures
            r == self.hash,
    {
        self.hash
    }

    /// Whether the policy of the transaction's authority, as `state_view`
    /// records it, admits the transaction's signatories.
    pub fn check_signature_condition(&self, state_view: &StateView) -> (r: bool)
        ensures
            r == state_view.signature_ok(self.authority@, self.signatories@),
    {
        state_view.check_account_signatures(&self.authority, &self.signatories)
    }

    /// Whether the transaction is already in a committed block.
    pub fn is_in_blockchain(&self, state_view: &StateView) -> (r: bool)
        ensures
            r == state_view.committed(self.hash),
    {
        state_view.has_transaction(&self.hash)
    }
}

} // verus!
