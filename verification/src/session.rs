//! The exchange with the host.
use vstd::prelude::*;

use crate::command::{Manifest, ManifestModel};
use crate::error::{Error, Trouble};
use crate::error;
use crate::host;
use crate::host::{Action, Answer, Host, Metadata, Output, Reply, Request};
use crate::program;
use crate::program::{Event, Program};
use crate::state::{Activation, ActivationModel, Transaction};

verus! {

/// A host together with the history of the exchange with it.
pub struct Session<H> {
    host: H,
    history: Ghost<Seq<Event>>,
}

impl<H> View for Session<H> {
    type V = Seq<Event>;

    closed spec fn view(&self) -> Seq<Event> {
        self.history@
    }
}

/// Asks for `Done`.
pub open spec fn act(request: Request) -> Program<Result<(), Trouble>> {
    Program::Ask(request, |x: Answer| Program::Done(x.done()))
}

/// Asks for `Stats`.
pub open spec fn stat(p: Seq<u8>) -> Program<Result<Metadata, Trouble>> {
    Program::Ask(Request::Stat(p), |x: Answer| Program::Done(x.stats()))
}

/// Asks for `Data`.
pub open spec fn data(request: Request) -> Program<Result<Seq<u8>, Trouble>> {
    Program::Ask(request, |x: Answer| Program::Done(x.data()))
}

/// Asks for the names in a directory.
pub open spec fn names(p: Seq<u8>) -> Program<Result<Seq<Seq<u8>>, Trouble>> {
    Program::Ask(Request::ReadDir(p), |x: Answer| Program::Done(x.names()))
}

/// Asks whether anything stands at a path.
pub open spec fn exists_at(p: Seq<u8>) -> Program<Result<bool, Trouble>> {
    Program::Ask(Request::Exists(p), |x: Answer| Program::Done(x.flag()))
}

/// Asks for a variable of the environment.
pub open spec fn variable(name: Seq<u8>) -> Program<Result<Option<Seq<u8>>, Trouble>> {
    Program::Ask(Request::Variable(name), |x: Answer| Program::Done(x.value()))
}

/// Asks for the output of a command.
pub open spec fn execute(words: Seq<Seq<u8>>) -> Program<Result<Output<Seq<u8>>, Trouble>> {
    Program::Ask(Request::Execute(words), |x: Answer| Program::Done(x.output()))
}

/// Asks for the activation of a recorded form.
pub open spec fn decode_activation(form: Seq<u8>) -> Program<Result<ActivationModel, Trouble>> {
    Program::Ask(Request::DecodeActivation(form), |x: Answer| Program::Done(x.activation()))
}

/// Asks for the transaction of a recorded form.
pub open spec fn decode_transaction(form: Seq<u8>) -> Program<
    Result<Transaction<Seq<u8>>, Trouble>,
> {
    Program::Ask(Request::DecodeTransaction(form), |x: Answer| Program::Done(x.transaction()))
}

/// Asks for the manifest of a written form.
pub open spec fn decode_manifest(form: Seq<u8>) -> Program<Result<ManifestModel, Trouble>> {
    Program::Ask(Request::DecodeManifest(form), |x: Answer| Program::Done(x.manifest()))
}

/// Asks, and does not look at the answer.
pub open spec fn tell(request: Request) -> Program<()> {
    Program::Ask(request, |x: Answer| Program::Done(()))
}

impl<H: Host> Session<H> {
    /// A session without history.
    pub fn new(host: H) -> (r: Session<H>)
        ensures
            r@ == Seq::<Event>::empty(),
    {
        Session { host, history: Ghost(Seq::empty()) }
    }

    /// Asks for something.
    pub fn ask(&mut self, action: Action) -> (r: Reply)
        ensures
            final(self)@ == old(self)@.push(Event { request: action@, answer: r@ }),
    {
        let ghost request = action@;
        let r = self.host.perform(action);
        self.history = Ghost(self.history@.push(Event { request, answer: r@ }));
        r
    }

    /// Asks for `Done`.
    pub fn act(&mut self, action: Action) -> (r: Result<(), Error>)
        ensures
            act(action@).ran(old(self)@, final(self)@, error::outcome(r)),
    {
        let ghost start = self@;
        let x = self.ask(action);
        proof {
            program::lemma_ask(action@, |x: Answer| Program::Done(x.done()), start, x@);
        }
        match x {
            Reply::Done => Ok(()),
            other => Err(other.into_failure()),
        }
    }

    /// Asks for kind and mode of the object at a path.
    pub fn stat(&mut self, p: Vec<u8>) -> (r: Result<Metadata, Error>)
        ensures
            stat(p@).ran(old(self)@, final(self)@, error::outcome(r)),
    {
        let ghost start = self@;
        let x = self.ask(Action::Stat(p));
        proof {
            program::lemma_ask(
                Request::Stat(p@),
                |x: Answer| Program::Done(x.stats()),
                start,
                x@,
            );
        }
        match x {
            Reply::Stats(m) => Ok(m),
            other => Err(other.into_failure()),
        }
    }

    /// Asks for `Data`.
    pub fn data(&mut self, action: Action) -> (r: Result<Vec<u8>, Error>)
        ensures
            data(action@).ran(old(self)@, final(self)@, error::result(r)),
    {
        let ghost start = self@;
        let x = self.ask(action);
        proof {
            program::lemma_ask(action@, |x: Answer| Program::Done(x.data()), start, x@);
        }
        match x {
            Reply::Data(found) => Ok(found),
            other => Err(other.into_failure()),
        }
    }

    /// Asks for the names in a directory.
    pub fn names(&mut self, p: Vec<u8>) -> (r: Result<Vec<Vec<u8>>, Error>)
        ensures
            names(p@).ran(
                old(self)@,
                final(self)@,
                match r {
                    Ok(found) => Ok(crate::bytes::all(found@)),
                    Err(e) => Err(e.seen()),
                },
            ),
            r matches Ok(found) ==> host::all_plain(crate::bytes::all(found@)),
    {
        let ghost start = self@;
        let x = self.ask(Action::ReadDir(p));
        proof {
            program::lemma_ask(
                Request::ReadDir(p@),
                |x: Answer| Program::Done(x.names()),
                start,
                x@,
            );
        }
        match x {
            Reply::Names(found) => if host::plain_names(&found) {
                Ok(found)
            } else {
                Err(error::surprise())
            },
            other => Err(other.into_failure()),
        }
    }

    /// Asks whether anything stands at a path.
    pub fn exists_at(&mut self, p: Vec<u8>) -> (r: Result<bool, Error>)
        ensures
            exists_at(p@).ran(old(self)@, final(self)@, error::outcome(r)),
    {
        let ghost start = self@;
        let x = self.ask(Action::Exists(p));
        proof {
            program::lemma_ask(
                Request::Exists(p@),
                |x: Answer| Program::Done(x.flag()),
                start,
                x@,
            );
        }
        match x {
            Reply::Flag(flag) => Ok(flag),
            other => Err(other.into_failure()),
        }
    }

    /// Asks for a variable of the environment.
    pub fn variable(&mut self, name: Vec<u8>) -> (r: Result<Option<Vec<u8>>, Error>)
        ensures
            variable(name@).ran(
                old(self)@,
                final(self)@,
                match r {
                    Ok(value) => Ok(host::maybe(value)),
                    Err(e) => Err(e.seen()),
                },
            ),
    {
        let ghost start = self@;
        let x = self.ask(Action::Variable(name));
        proof {
            program::lemma_ask(
                Request::Variable(name@),
                |x: Answer| Program::Done(x.value()),
                start,
                x@,
            );
        }
        match x {
            Reply::Value(value) => Ok(value),
            other => Err(other.into_failure()),
        }
    }

    /// Asks for the output of a command.
    pub fn execute(&mut self, words: Vec<Vec<u8>>) -> (r: Result<Output, Error>)
        ensures
            execute(crate::bytes::all(words@)).ran(old(self)@, final(self)@, error::result(r)),
    {
        let ghost start = self@;
        let x = self.ask(Action::Execute(words));
        proof {
            program::lemma_ask(
                Request::Execute(crate::bytes::all(words@)),
                |x: Answer| Program::Done(x.output()),
                start,
                x@,
            );
        }
        match x {
            Reply::Output { success, stdout, stderr } => Ok(Output { success, stdout, stderr }),
            other => Err(other.into_failure()),
        }
    }

    /// Asks for the activation of a recorded form.
    pub fn decode_activation(&mut self, form: Vec<u8>) -> (r: Result<Activation, Error>)
        ensures
            decode_activation(form@).ran(old(self)@, final(self)@, error::result(r)),
    {
        let ghost start = self@;
        let x = self.ask(Action::DecodeActivation(form));
        proof {
            program::lemma_ask(
                Request::DecodeActivation(form@),
                |x: Answer| Program::Done(x.activation()),
                start,
                x@,
            );
        }
        match x {
            Reply::Activation(a) => Ok(a),
            other => Err(other.into_failure()),
        }
    }

    /// Asks for the transaction of a recorded form.
    pub fn decode_transaction(&mut self, form: Vec<u8>) -> (r: Result<Transaction, Error>)
        ensures
            decode_transaction(form@).ran(old(self)@, final(self)@, error::result(r)),
    {
        let ghost start = self@;
        let x = self.ask(Action::DecodeTransaction(form));
        proof {
            program::lemma_ask(
                Request::DecodeTransaction(form@),
                |x: Answer| Program::Done(x.transaction()),
                start,
                x@,
            );
        }
        match x {
            Reply::Transaction(t) => Ok(t),
            other => Err(other.into_failure()),
        }
    }

    /// Asks for the manifest of a written form.
    pub fn decode_manifest(&mut self, form: Vec<u8>) -> (r: Result<Manifest, Error>)
        ensures
            decode_manifest(form@).ran(old(self)@, final(self)@, error::result(r)),
    {
        let ghost start = self@;
        let x = self.ask(Action::DecodeManifest(form));
        proof {
            program::lemma_ask(
                Request::DecodeManifest(form@),
                |x: Answer| Program::Done(x.manifest()),
                start,
                x@,
            );
        }
        match x {
            Reply::Manifest(m) => Ok(m),
            other => Err(other.into_failure()),
        }
    }

    /// Asks, and does not look at the answer.
    pub fn tell(&mut self, action: Action)
        ensures
            tell(action@).ran(old(self)@, final(self)@, ()),
    {
        let ghost start = self@;
        let x = self.ask(action);
        proof {
            program::lemma_ask(action@, |x: Answer| Program::Done(()), start, x@);
        }
    }
}

} // verus!
